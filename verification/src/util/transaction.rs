//! Installing packages: in which order their archives are deployed, and how
//! a deployed package is recorded in the pool and in the database.
use vstd::prelude::*;
use vstd::string::StringExecFns;
use crate::db::fsentries::{flat_paths, lemma_owned_paths, refused_text};
use crate::db::packages::{lemma_insert_package_wf, not_inserted_error};
use crate::db::{sql_error, DBConnection, DatabaseView, DependencyRow};
use crate::error::{LError, LErrorClass, LErrorView};
use crate::package::packageref::{dangling_error, PoolView};
use crate::package::{
    fq_name_string, fq_name_text, variant_error, CorePackage, InstalledPackage, PackageExtra,
    PackagePool, PackageRef, PackageVariant, PackageView,
};
use crate::util::fs::{duplicate_forest, flatten_forest, forest_view, EntryView, FSEntry};
use crate::util::search::{distinct, first_index, lemma_first_index};

verus! {

/// How many places of `v` are not marked.
pub open spec fn unvisited(v: Seq<bool>) -> nat
    decreases v.len(),
{
    if v.len() == 0 {
        0
    } else {
        unvisited(v.drop_last()) + if v.last() {
            0nat
        } else {
            1nat
        }
    }
}

/// Whether every mark of `v` is a mark of `w`.
pub open spec fn marks_kept(v: Seq<bool>, w: Seq<bool>) -> bool {
    v.len() == w.len() && forall|i: int| 0 <= i < v.len() && v[i] ==> #[trigger] w[i]
}

/// With more marks, no more places are unmarked.
pub proof fn lemma_unvisited_mono(v: Seq<bool>, w: Seq<bool>)
    requires
        marks_kept(v, w),
    ensures
        unvisited(w) <= unvisited(v),
    decreases v.len(),
{
    if v.len() > 0 {
        assert(v.drop_last().len() == w.drop_last().len());
        assert forall|i: int| 0 <= i < v.drop_last().len() && v.drop_last()[i] implies #[trigger] w.drop_last()[i] by {
            assert(v[i]);
            assert(w[i]);
        }
        lemma_unvisited_mono(v.drop_last(), w.drop_last());
        if v.last() {
            assert(v[v.len() - 1]);
            assert(w[v.len() - 1]);
        }
    }
}

/// With a further mark, fewer places are unmarked.
pub proof fn lemma_unvisited_strict(v: Seq<bool>, w: Seq<bool>, i: int)
    requires
        marks_kept(v, w),
        0 <= i < v.len(),
        !v[i],
        w[i],
    ensures
        unvisited(w) < unvisited(v),
    decreases v.len(),
{
    assert(v.drop_last().len() == w.drop_last().len());
    assert forall|j: int| 0 <= j < v.drop_last().len() && v.drop_last()[j] implies #[trigger] w.drop_last()[j] by {
        assert(v[j]);
        assert(w[j]);
    }
    if i == v.len() - 1 {
        lemma_unvisited_mono(v.drop_last(), w.drop_last());
    } else {
        lemma_unvisited_strict(v.drop_last(), w.drop_last(), i);
        if v.last() {
            assert(v[v.len() - 1]);
            assert(w[v.len() - 1]);
        }
    }
}

/// The error for a remote package that is asked to be installed.
pub open spec fn remote_error(p: PackageView) -> LErrorView {
    LErrorView {
        class: LErrorClass::UnexpectedPackageVariant,
        messages: seq!["Can't install remote package "@ + fq_name_text(p)],
    }
}

/// Builds the error for a remote package that is asked to be installed.
fn remote_refused(remote: &crate::package::RemotePackage) -> (r: LError)
    ensures
        r@ == remote_error(remote@),
{
    let mut text = String::from_str("Can't install remote package ");
    let fq = fq_name_string(remote.name(), remote.version(), remote.real_version());
    text.append(fq.as_str());
    LError::new(LErrorClass::UnexpectedPackageVariant, text.as_str())
}

/// The classes of the errors that planning an installation can end with.
pub open spec fn order_failure(class: LErrorClass) -> bool {
    class == LErrorClass::UnexpectedPackageVariant || class == LErrorClass::UnresolvedDependencies
        || class == LErrorClass::PackageNotFound
}

/// Whether every package of the plan can be installed: handles have
/// packages, dependencies are resolved and stay within the plan, and no
/// package of the plan is a remote one.
pub open spec fn installable(pool: PoolView) -> bool {
    &&& pool.handles_valid()
    &&& pool.closed()
    &&& pool.resolved()
    &&& forall|i: int|
        0 <= i < pool.order.len() ==> !((#[trigger] pool.packages[pool.order[i] as int]).extra is Remote)
}

/// What holds of the marks and of the packages to deploy during a walk: every
/// package to deploy is a marked local package, and none is listed twice.
pub open spec fn walk_inv(pool: PoolView, visited: Seq<bool>, order: Seq<PackageRef>) -> bool {
    &&& visited.len() == pool.packages.len()
    &&& distinct(order)
    &&& forall|i: int|
        0 <= i < order.len() ==> (#[trigger] order[i]) < pool.packages.len() && visited[order[i] as int]
            && pool.packages[order[i] as int].extra is Local
}

/// Whether every package that was marked between `before` and `after` is
/// taken care of: it is installed, or it is a local package that is listed for
/// deployment and whose dependencies are all marked.
pub open spec fn walked(pool: PoolView, before: Seq<bool>, after: Seq<bool>, order: Seq<PackageRef>) -> bool {
    forall|g: int|
        0 <= g < pool.packages.len() && #[trigger] after[g] && !before[g] ==> {
            ||| pool.packages[g].extra is Installed
            ||| {
                &&& order.contains(g as usize)
                &&& forall|k: int|
                    0 <= k < pool.deps(g).len() ==> (#[trigger] pool.deps(g)[k]) < pool.packages.len()
                        && after[pool.deps(g)[k] as int]
            }
        }
}

/// The walk of one call after the walk of another is a walk.
pub proof fn lemma_walked_trans(
    pool: PoolView,
    a: Seq<bool>,
    b: Seq<bool>,
    c: Seq<bool>,
    first: Seq<PackageRef>,
    second: Seq<PackageRef>,
)
    requires
        a.len() == pool.packages.len(),
        marks_kept(a, b),
        marks_kept(b, c),
        walked(pool, a, b, first),
        walked(pool, b, c, second),
        first.len() <= second.len(),
        second.take(first.len() as int) == first,
    ensures
        walked(pool, a, c, second),
        marks_kept(a, c),
{
    assert forall|g: int| 0 <= g < pool.packages.len() && #[trigger] c[g] && !a[g] implies {
        ||| pool.packages[g].extra is Installed
        ||| {
            &&& second.contains(g as usize)
            &&& forall|k: int|
                0 <= k < pool.deps(g).len() ==> (#[trigger] pool.deps(g)[k]) < pool.packages.len()
                    && c[pool.deps(g)[k] as int]
        }
    } by {
        if b[g] {
            if !(pool.packages[g].extra is Installed) {
                let i = choose|i: int| 0 <= i < first.len() && first[i] == g as usize;
                assert(second.take(first.len() as int)[i] == first[i]);
                assert(second[i] == g as usize);
                assert forall|k: int| 0 <= k < pool.deps(g).len() implies (#[trigger] pool.deps(
                    g,
                )[k]) < pool.packages.len() && c[pool.deps(g)[k] as int] by {
                    assert(b[pool.deps(g)[k] as int]);
                }
            }
        }
    }
}

/// Whether `rank` falls along the dependencies of the local packages: each
/// local package has a greater rank than every package that it depends on.
pub open spec fn stepped(pool: PoolView, rank: spec_fn(int) -> nat) -> bool {
    forall|g: PackageRef, k: int|
        g < pool.packages.len() && pool.packages[g as int].extra is Local && 0 <= k < pool.deps(
            g as int,
        ).len() && (#[trigger] pool.deps(g as int)[k]) < pool.packages.len() ==> rank(
            pool.deps(g as int)[k] as int,
        ) < rank(g as int)
}

/// Whether no local package depends on itself, directly or through others.
pub open spec fn acyclic(pool: PoolView) -> bool {
    exists|rank: spec_fn(int) -> nat| stepped(pool, rank)
}

/// Whether every package of `order` stands behind all that it depends on:
/// each of its dependencies is installed or stands before it.
pub open spec fn ahead(pool: PoolView, order: Seq<PackageRef>) -> bool {
    forall|i: int, k: int|
        0 <= i < order.len() && 0 <= k < pool.deps(order[i] as int).len() ==> {
            let d = #[trigger] pool.deps(order[i] as int)[k];
            d < pool.packages.len() && (pool.packages[d as int].extra is Installed || order.take(i).contains(
                d,
            ))
        }
}

/// The first place of the handle `g` in `order`.
pub open spec fn place(order: Seq<PackageRef>, g: int) -> nat {
    if 0 <= g <= usize::MAX {
        first_index(order, g as usize) as nat
    } else {
        0
    }
}

/// In a plan without a cycle that holds every local package, no local
/// package depends on itself, directly or through others.
pub proof fn lemma_plan_acyclic(pool: PoolView)
    requires
        pool.wf(),
        !pool.cyclic,
        forall|g: PackageRef|
            g < pool.packages.len() && (#[trigger] pool.packages[g as int]).extra is Local
                ==> pool.order.contains(g),
    ensures
        acyclic(pool),
{
    let rank = |g: int| place(pool.order, g);
    assert forall|g: PackageRef, k: int|
        g < pool.packages.len() && pool.packages[g as int].extra is Local && 0 <= k < pool.deps(
            g as int,
        ).len() && (#[trigger] pool.deps(g as int)[k]) < pool.packages.len() implies rank(
        pool.deps(g as int)[k] as int,
    ) < rank(g as int) by {
        let d = pool.deps(g as int)[k];
        lemma_first_index(pool.order, g);
        lemma_first_index(pool.order, d);
        let i = first_index(pool.order, g);
        assert(pool.order.contains(g));
        assert(pool.order[i] == g);
        assert(first_index(pool.order, pool.deps(pool.order[i] as int)[k]) < i);
        assert(g as int as usize == g);
        assert(d as int as usize == d);
    }
    assert(stepped(pool, rank));
}

/// Whether every marked package is installed, listed, or of a greater rank
/// than the package behind `package`.
pub open spec fn marks_clear(
    pool: PoolView,
    visited: Seq<bool>,
    order: Seq<PackageRef>,
    rank: spec_fn(int) -> nat,
    package: PackageRef,
) -> bool {
    forall|g: int|
        0 <= g < pool.packages.len() && #[trigger] visited[g] ==> pool.packages[g].extra is Installed
            || order.contains(g as usize) || rank(package as int) < rank(g)
}

/// Before the walk goes on to a dependency of a local package, every marked
/// package is installed, listed, or of a greater rank than the dependency.
pub proof fn lemma_clear_step(
    pool: PoolView,
    v0: Seq<bool>,
    o0: Seq<PackageRef>,
    va: Seq<bool>,
    oa: Seq<PackageRef>,
    rank: spec_fn(int) -> nat,
    package: PackageRef,
    k: int,
)
    requires
        stepped(pool, rank),
        package < pool.packages.len(),
        pool.packages[package as int].extra is Local,
        v0.len() == pool.packages.len(),
        va.len() == pool.packages.len(),
        marks_clear(pool, v0, o0, rank, package),
        walked(pool, v0.update(package as int, true), va, oa),
        o0.len() <= oa.len(),
        oa.take(o0.len() as int) == o0,
        0 <= k < pool.deps(package as int).len(),
        pool.deps(package as int)[k] < pool.packages.len(),
    ensures
        marks_clear(pool, va, oa, rank, pool.deps(package as int)[k]),
{
    let d = pool.deps(package as int)[k];
    let v1 = v0.update(package as int, true);
    assert(rank(d as int) < rank(package as int));
    assert forall|g: int| 0 <= g < pool.packages.len() && #[trigger] va[g] implies pool.packages[g].extra is Installed
        || oa.contains(g as usize) || rank(d as int) < rank(g) by {
        if g == package {
        } else if v0[g] {
            if o0.contains(g as usize) {
                let i = choose|i: int| 0 <= i < o0.len() && o0[i] == g as usize;
                assert(oa.take(o0.len() as int)[i] == oa[i]);
            }
        } else {
            assert(!v1[g]);
        }
    }
}

/// A local package whose dependencies are all marked goes behind a list in
/// which every package stands behind all that it depends on, and stands
/// behind all that it depends on itself.
pub proof fn lemma_ahead_push(
    pool: PoolView,
    v0: Seq<bool>,
    o0: Seq<PackageRef>,
    vb: Seq<bool>,
    ob: Seq<PackageRef>,
    rank: spec_fn(int) -> nat,
    package: PackageRef,
)
    requires
        stepped(pool, rank),
        package < pool.packages.len(),
        pool.packages[package as int].extra is Local,
        v0.len() == pool.packages.len(),
        vb.len() == pool.packages.len(),
        marks_clear(pool, v0, o0, rank, package),
        walked(pool, v0.update(package as int, true), vb, ob),
        o0.len() <= ob.len(),
        ob.take(o0.len() as int) == o0,
        ahead(pool, ob),
        forall|j: int|
            0 <= j < pool.deps(package as int).len() ==> (#[trigger] pool.deps(package as int)[j])
                < pool.packages.len() && vb[pool.deps(package as int)[j] as int],
    ensures
        ahead(pool, ob.push(package)),
{
    let of = ob.push(package);
    assert forall|i: int, k: int| 0 <= i < of.len() && 0 <= k < pool.deps(of[i] as int).len() implies {
        let d = #[trigger] pool.deps(of[i] as int)[k];
        d < pool.packages.len() && (pool.packages[d as int].extra is Installed || of.take(i).contains(d))
    } by {
        if i < ob.len() {
            assert(of.take(i) =~= ob.take(i));
            assert(of[i] == ob[i]);
        } else {
            assert(of.take(i) =~= ob);
            lemma_clear_step(pool, v0, o0, vb, ob, rank, package, k);
            let d = pool.deps(package as int)[k];
            assert(vb[d as int]);
        }
    }
}

/// Whether nothing stands in `order` at place `from` or behind it without
/// being called for: each package there is the one behind `package`, or a
/// package that stands there depends on it.
pub open spec fn called(pool: PoolView, from: int, order: Seq<PackageRef>, package: PackageRef) -> bool {
    forall|i: int|
        0 <= from <= i < order.len() ==> #[trigger] order[i] == package || exists|j: int|
            from <= j < order.len() && pool.deps(#[trigger] order[j] as int).contains(order[i])
}

/// What the walk from one dependency of the package behind `package` left
/// in the list stays called for when the walk goes on.
pub proof fn lemma_called_step(
    pool: PoolView,
    from: int,
    oa: Seq<PackageRef>,
    ob: Seq<PackageRef>,
    hs: Seq<PackageRef>,
    y: PackageRef,
)
    requires
        0 <= from <= oa.len() <= ob.len(),
        ob.take(oa.len() as int) == oa,
        forall|i: int|
            from <= i < oa.len() ==> hs.contains(#[trigger] oa[i]) || exists|j: int|
                from <= j < oa.len() && pool.deps(#[trigger] oa[j] as int).contains(oa[i]),
        called(pool, oa.len() as int, ob, y),
    ensures
        forall|i: int|
            from <= i < ob.len() ==> hs.push(y).contains(#[trigger] ob[i]) || exists|j: int|
                from <= j < ob.len() && pool.deps(#[trigger] ob[j] as int).contains(ob[i]),
{
    assert forall|i: int| from <= i < ob.len() implies hs.push(y).contains(#[trigger] ob[i]) || exists|
        j: int,
    |
        from <= j < ob.len() && pool.deps(#[trigger] ob[j] as int).contains(ob[i]) by {
        if i < oa.len() {
            assert(ob.take(oa.len() as int)[i] == oa[i]);
            if hs.contains(oa[i]) {
                let a = choose|a: int| 0 <= a < hs.len() && hs[a] == oa[i];
                assert(hs.push(y)[a] == oa[i]);
            } else {
                let j = choose|j: int|
                    from <= j < oa.len() && pool.deps(#[trigger] oa[j] as int).contains(oa[i]);
                assert(ob.take(oa.len() as int)[j] == oa[j]);
                assert(pool.deps(ob[j] as int).contains(ob[i]));
            }
        } else if ob[i] == y {
            assert(hs.push(y)[hs.len() as int] == y);
        } else {
            let j = choose|j: int|
                oa.len() <= j < ob.len() && pool.deps(#[trigger] ob[j] as int).contains(ob[i]);
            assert(pool.deps(ob[j] as int).contains(ob[i]));
        }
    }
}

/// Walks from the package behind `package` along resolved dependencies and
/// lists the local packages that have to be deployed, each behind those it
/// depends on. A package that is marked is in hand already and is left
/// alone; an installed package needs nothing; a remote package cannot be
/// installed.
fn install_package_rec(
    package: PackageRef,
    pool: &PackagePool,
    visited: &mut Vec<bool>,
    order: &mut Vec<PackageRef>,
    Ghost(rank): Ghost<spec_fn(int) -> nat>,
) -> (r: Result<(), LError>)
    requires
        walk_inv(pool@, old(visited)@, old(order)@),
        stepped(pool@, rank) ==> ahead(pool@, old(order)@),
        stepped(pool@, rank) && package < pool@.packages.len() ==> marks_clear(
            pool@,
            old(visited)@,
            old(order)@,
            rank,
            package,
        ),
    ensures
        r is Ok && stepped(pool@, rank) ==> ahead(pool@, final(order)@),
        r is Ok ==> called(pool@, old(order)@.len() as int, final(order)@, package),
        r is Ok && (old(visited)@[package as int] || pool@.packages[package as int].extra is Installed)
            ==> final(order)@ == old(order)@,
        walk_inv(pool@, final(visited)@, final(order)@),
        marks_kept(old(visited)@, final(visited)@),
        old(order)@.len() <= final(order)@.len(),
        final(order)@.take(old(order)@.len() as int) == old(order)@,
        forall|i: int|
            old(order)@.len() <= i < final(order)@.len() ==> !old(visited)@[#[trigger] final(order)@[i] as int],
        r is Ok ==> package < pool@.packages.len() && final(visited)@[package as int] && walked(
            pool@,
            old(visited)@,
            final(visited)@,
            final(order)@,
        ),
        r is Err ==> order_failure(r->Err_0@.class),
        package >= pool@.packages.len() ==> r is Err && r->Err_0@ == dangling_error(),
        installable(pool@) && pool@.order.contains(package) ==> r is Ok,
        package < pool@.packages.len() && !old(visited)@[package as int]
            && pool@.packages[package as int].extra is Remote ==> r is Err && r->Err_0@
            == remote_error(pool@.packages[package as int]),
    decreases unvisited(old(visited)@),
{
    let ghost v0 = visited@;
    proof {
        if installable(pool@) && pool@.order.contains(package) {
            let i = choose|i: int| 0 <= i < pool@.order.len() && pool@.order[i] == package;
            assert(pool@.order[i] < pool@.packages.len());
            assert(pool@.finished(pool@.order[i] as int));
            assert(!(pool@.packages[pool@.order[i] as int].extra is Remote));
            assert forall|k: int| 0 <= k < pool@.deps(package as int).len() implies pool@.order.contains(
                #[trigger] pool@.deps(package as int)[k],
            ) by {
                assert(pool@.order.contains(pool@.deps(pool@.order[i] as int)[k]));
            }
        }
    }
    let ghost o0 = order@;
    proof {
        assert(o0.take(o0.len() as int) =~= o0);
    }
    if package >= pool.packages.len() {
        return Err(
            LError::new(
                LErrorClass::PackageNotFound,
                "A dependency refers to a package that is not in the pool",
            ),
        );
    }
    if visited[package] {
        return Ok(());
    }
    visited.set(package, true);
    let ghost v1 = visited@;
    proof {
        lemma_unvisited_strict(v0, v1, package as int);
    }
    match &pool.packages[package] {
        PackageVariant::Installed(_) => Ok(()),
        PackageVariant::Remote(remote) => Err(remote_refused(remote)),
        PackageVariant::Local(local) => {
            let handles = match local.dependencies.get_resolved() {
                Ok(hs) => hs,
                Err(e) => {
                    return Err(e);
                },
            };
            let mut k: usize = 0;
            while k < handles.len()
                invariant
                    k <= handles.len(),
                    v0 == old(visited)@,
                    o0 == old(order)@,
                    package < pool@.packages.len(),
                    pool@.deps(package as int) == handles@,
                    pool@.packages[package as int].extra is Local,
                    !v0[package as int],
                    v1 == v0.update(package as int, true),
                    unvisited(v1) < unvisited(v0),
                    walk_inv(pool@, v0, o0),
                    walk_inv(pool@, visited@, order@),
                    marks_kept(v1, visited@),
                    o0.len() <= order@.len(),
                    order@.take(o0.len() as int) == o0,
                    forall|i: int| o0.len() <= i < order@.len() ==> !v1[#[trigger] order@[i] as int],
                    walked(pool@, v1, visited@, order@),
                    forall|i: int|
                        o0.len() <= i < order@.len() ==> handles@.take(k as int).contains(
                            #[trigger] order@[i],
                        ) || exists|j: int|
                            o0.len() <= j < order@.len() && pool@.deps(#[trigger] order@[j] as int).contains(
                                order@[i],
                            ),
                    stepped(pool@, rank) ==> ahead(pool@, order@) && marks_clear(
                        pool@,
                        v0,
                        o0,
                        rank,
                        package,
                    ),
                    forall|j: int|
                        0 <= j < k ==> (#[trigger] handles@[j]) < pool@.packages.len()
                            && visited@[handles@[j] as int],
                    installable(pool@) && pool@.order.contains(package) ==> forall|j: int|
                        0 <= j < handles@.len() ==> pool@.order.contains(#[trigger] handles@[j]),
                decreases handles.len() - k,
            {
                let ghost va = visited@;
                let ghost oa = order@;
                proof {
                    lemma_unvisited_mono(v1, va);
                    if stepped(pool@, rank) && handles@[k as int] < pool@.packages.len() {
                        lemma_clear_step(pool@, v0, o0, va, oa, rank, package, k as int);
                    }
                }
                match install_package_rec(handles[k], pool, visited, order, Ghost(rank)) {
                    Ok(()) => {},
                    Err(e) => {
                        proof {
                            assert(order@.take(o0.len() as int) =~= o0) by {
                                assert forall|i: int| 0 <= i < o0.len() implies order@[i] == o0[i] by {
                                    assert(order@.take(oa.len() as int)[i] == oa[i]);
                                    assert(oa.take(o0.len() as int)[i] == o0[i]);
                                }
                            }
                            assert forall|i: int| o0.len() <= i < order@.len() implies !v0[#[trigger] order@[i] as int] by {
                                if i < oa.len() {
                                    assert(order@.take(oa.len() as int)[i] == oa[i]);
                                }
                            }
                        }
                        return Err(e);
                    },
                }
                proof {
                    lemma_called_step(
                        pool@,
                        o0.len() as int,
                        oa,
                        order@,
                        handles@.take(k as int),
                        handles@[k as int],
                    );
                    assert(handles@.take(k as int).push(handles@[k as int]) =~= handles@.take(k + 1));
                    lemma_walked_trans(pool@, v1, va, visited@, oa, order@);
                    assert(order@.take(o0.len() as int) =~= o0) by {
                        assert forall|i: int| 0 <= i < o0.len() implies order@[i] == o0[i] by {
                            assert(order@.take(oa.len() as int)[i] == oa[i]);
                            assert(oa.take(o0.len() as int)[i] == o0[i]);
                        }
                    }
                    assert forall|i: int| o0.len() <= i < order@.len() implies !v1[#[trigger] order@[i] as int] by {
                        if i < oa.len() {
                            assert(order@.take(oa.len() as int)[i] == oa[i]);
                        }
                    }
                }
                k = k + 1;
            }
            let ghost ob = order@;
            order.push(package);
            proof {
                let of = order@;
                if stepped(pool@, rank) {
                    lemma_ahead_push(pool@, v0, o0, visited@, ob, rank, package);
                }
                assert(handles@.take(handles@.len() as int) =~= handles@);
                assert forall|i: int| o0.len() <= i < of.len() implies #[trigger] of[i] == package || exists|
                    j: int,
                |
                    o0.len() <= j < of.len() && pool@.deps(#[trigger] of[j] as int).contains(of[i]) by {
                    if i < ob.len() {
                        assert(of[i] == ob[i]);
                        if handles@.contains(ob[i]) {
                            assert(pool@.deps(of[ob.len() as int] as int).contains(of[i]));
                        } else {
                            let j = choose|j: int|
                                o0.len() <= j < ob.len() && pool@.deps(#[trigger] ob[j] as int).contains(
                                    ob[i],
                                );
                            assert(of[j] == ob[j]);
                            assert(pool@.deps(of[j] as int).contains(of[i]));
                        }
                    }
                }
                assert(of.take(o0.len() as int) =~= o0) by {
                    assert forall|i: int| 0 <= i < o0.len() implies of[i] == o0[i] by {
                        assert(ob.take(o0.len() as int)[i] == o0[i]);
                    }
                }
                assert(distinct(of)) by {
                    assert forall|i: int, j: int| 0 <= i < j < of.len() implies of[i] != of[j] by {
                        if j == ob.len() {
                            if i < o0.len() {
                                assert(ob.take(o0.len() as int)[i] == o0[i]);
                                assert(v0[o0[i] as int]);
                            } else {
                                assert(!v1[ob[i] as int]);
                            }
                        } else {
                            assert(ob[i] != ob[j]);
                        }
                    }
                }
                assert(walked(pool@, v0, visited@, of)) by {
                    assert forall|g: int|
                        0 <= g < pool@.packages.len() && #[trigger] visited@[g] && !v0[g] implies {
                        ||| pool@.packages[g].extra is Installed
                        ||| {
                            &&& of.contains(g as usize)
                            &&& forall|k: int|
                                0 <= k < pool@.deps(g).len() ==> (#[trigger] pool@.deps(g)[k])
                                    < pool@.packages.len() && visited@[pool@.deps(g)[k] as int]
                        }
                    } by {
                        if g == package {
                            assert(of[ob.len() as int] == package);
                        } else {
                            assert(!v1[g]);
                            if !(pool@.packages[g].extra is Installed) {
                                let i = choose|i: int| 0 <= i < ob.len() && ob[i] == g as usize;
                                assert(of[i] == g as usize);
                            }
                        }
                    }
                }
                assert forall|i: int| o0.len() <= i < of.len() implies !v0[#[trigger] of[i] as int] by {
                    if i < ob.len() {
                        assert(!v1[ob[i] as int]);
                    }
                }
            }
            Ok(())
        },
    }
}

/// Whether `order` lists what installing the package behind `package` has
/// to deploy: distinct local packages, among them the package itself unless
/// it is installed, and with each of them all that it depends on and that is
/// not installed.
pub open spec fn covers(pool: PoolView, package: PackageRef, order: Seq<PackageRef>) -> bool {
    &&& distinct(order)
    &&& package < pool.packages.len()
    &&& pool.packages[package as int].extra is Installed || order.contains(package)
    &&& forall|i: int|
        0 <= i < order.len() ==> (#[trigger] order[i]) < pool.packages.len()
            && pool.packages[order[i] as int].extra is Local
    &&& forall|i: int, k: int|
        0 <= i < order.len() && 0 <= k < pool.deps(order[i] as int).len() ==> {
            let d = #[trigger] pool.deps(order[i] as int)[k];
            d < pool.packages.len() && (pool.packages[d as int].extra is Installed
                || order.contains(d))
        }
}

/// Lists the local packages that installing the package behind `package`
/// has to deploy, in the order of deployment: the walk goes along resolved
/// dependencies, dependencies first, and ends a cycle at the package that is
/// in hand. The list holds the package and what it comes to through
/// dependencies, and nothing else. Where no local package depends on itself,
/// every package of the list stands behind all that it depends on. An
/// installed package needs nothing. A remote package, unresolved
/// dependencies and a handle without a package are errors.
pub fn install_order(package: PackageRef, pool: &PackagePool) -> (r: Result<Vec<PackageRef>, LError>)
    ensures
        r is Ok ==> covers(pool@, package, r->Ok_0@),
        r is Ok ==> called(pool@, 0, r->Ok_0@, package),
        r is Ok && pool@.packages[package as int].extra is Installed ==> r->Ok_0@.len() == 0,
        r is Ok && acyclic(pool@) ==> ahead(pool@, r->Ok_0@),
        r is Err ==> order_failure(r->Err_0@.class),
        package >= pool@.packages.len() ==> r is Err && r->Err_0@ == dangling_error(),
        package < pool@.packages.len() && pool@.packages[package as int].extra is Remote ==> r is Err
            && r->Err_0@ == remote_error(pool@.packages[package as int]),
        installable(pool@) && pool@.order.contains(package) ==> r is Ok,
{
    let mut visited: Vec<bool> = Vec::new();
    let mut i: usize = 0;
    while i < pool.packages.len()
        invariant
            i <= pool.packages.len(),
            visited@.len() == i,
            forall|j: int| 0 <= j < i ==> !(#[trigger] visited@[j]),
        decreases pool.packages.len() - i,
    {
        visited.push(false);
        i = i + 1;
    }
    let ghost v0 = visited@;
    let mut order: Vec<PackageRef> = Vec::new();
    let ghost rank = choose|rank: spec_fn(int) -> nat| stepped(pool@, rank);
    match install_package_rec(package, pool, &mut visited, &mut order, Ghost(rank)) {
        Ok(()) => {
            proof {
                let p = pool@;
                let o = order@;
                assert forall|i: int, k: int|
                    0 <= i < o.len() && 0 <= k < p.deps(o[i] as int).len() implies {
                    let d = #[trigger] p.deps(o[i] as int)[k];
                    d < p.packages.len() && (p.packages[d as int].extra is Installed || o.contains(d))
                } by {
                    let g = o[i] as int;
                    assert(visited@[g] && !v0[g]);
                    let d = p.deps(g)[k];
                    assert(visited@[d as int] && !v0[d as int]);
                }
                assert(visited@[package as int] && !v0[package as int]);
            }
            Ok(order)
        },
        Err(e) => Err(e),
    }
}

/// The package `p` as installed, owning `files`.
pub open spec fn installed_view(p: PackageView, files: Seq<EntryView>) -> PackageView {
    PackageView { extra: PackageExtra::Installed { files }, ..p }
}

/// The views of a list of lists of entries.
pub open spec fn forests_view(files: Seq<Vec<FSEntry>>) -> Seq<Seq<EntryView>> {
    Seq::new(files.len(), |i: int| forest_view(files[i]@))
}

/// The error for a list of trees that does not match the list of packages.
pub open spec fn mismatch_error() -> LErrorView {
    LErrorView {
        class: LErrorClass::Unknown,
        messages: seq!["Every deployed package needs its list of files"@],
    }
}

/// The tables after one deployed package was recorded, and the error if it
/// could not be: the package behind `h` has to be a local package; it gets a
/// row unless its name has one, and its files get their rows, owned by it.
pub open spec fn record_one(db: DatabaseView, pool: Seq<PackageView>, h: PackageRef, files: Seq<EntryView>) -> (
    DatabaseView,
    Option<LErrorView>,
) {
    if h >= pool.len() {
        (db, Some(dangling_error()))
    } else if !(pool[h as int].extra is Local) {
        (db, Some(variant_error("local"@, pool[h as int])))
    } else {
        let p = installed_view(pool[h as int], files);
        if !db.has_name(p.name) && db.packages_full() {
            (db, Some(sql_error("The packages table is full"@)))
        } else {
            let d1 = db.insert_package(p);
            match d1.id_of(p.name) {
                None => (d1, Some(not_inserted_error())),
                Some(id) => {
                    let w = d1.with_files(id, flatten_forest(files, Seq::empty()));
                    (
                        w.0,
                        if w.1 {
                            None
                        } else {
                            Some(sql_error(refused_text()))
                        },
                    )
                },
            }
        }
    }
}

/// The tables after the first `k` deployed packages were recorded in order,
/// and the first error, at which recording stops.
pub open spec fn record_all(
    db: DatabaseView,
    pool: Seq<PackageView>,
    order: Seq<PackageRef>,
    files: Seq<Seq<EntryView>>,
    k: int,
) -> (DatabaseView, Option<LErrorView>)
    decreases k,
{
    if k <= 0 {
        (db, None)
    } else {
        let before = record_all(db, pool, order, files, k - 1);
        if before.1 is Some {
            before
        } else {
            record_one(before.0, pool, order[k - 1], files[k - 1])
        }
    }
}

/// The error for a local package that is asked to be recorded as installed
/// without having been deployed.
pub open spec fn undeployed_error(p: PackageView) -> LErrorView {
    LErrorView {
        class: LErrorClass::UnexpectedPackageVariant,
        messages: seq!["Package has not been deployed: "@ + fq_name_text(p)],
    }
}

/// What installing comes to in the database. The package that is asked for
/// needs a handle with a package behind it; a remote package is never
/// installed; a local package has to be among the deployed ones. Then the
/// deployed packages are recorded in order, and the dependencies of the
/// package that was asked for are recorded last. The first error ends it.
pub open spec fn install_spec(
    db: DatabaseView,
    pool: PoolView,
    package: PackageRef,
    order: Seq<PackageRef>,
    files: Seq<Seq<EntryView>>,
) -> (DatabaseView, Option<LErrorView>) {
    if order.len() != files.len() {
        (db, Some(mismatch_error()))
    } else if package >= pool.packages.len() {
        (db, Some(dangling_error()))
    } else if pool.packages[package as int].extra is Remote {
        (db, Some(remote_error(pool.packages[package as int])))
    } else if pool.packages[package as int].extra is Local && !order.contains(package) {
        (db, Some(undeployed_error(pool.packages[package as int])))
    } else {
        let recorded = record_all(db, pool.packages, order, files, order.len() as int);
        if recorded.1 is Some {
            recorded
        } else {
            recorded.0.insert_dependencies(pool.packages[package as int], pool.packages)
        }
    }
}

/// The pool after the packages of `order` from place `from` on became
/// installed packages that own their files.
pub open spec fn installed_pool(
    pool: PoolView,
    order: Seq<PackageRef>,
    files: Seq<Seq<EntryView>>,
    from: int,
) -> PoolView
    decreases order.len() - from,
{
    if from >= order.len() || from < 0 {
        pool
    } else {
        let rest = installed_pool(pool, order, files, from + 1);
        PoolView {
            packages: rest.packages.update(
                order[from] as int,
                installed_view(pool.packages[order[from] as int], files[from]),
            ),
            ..rest
        }
    }
}

/// Once recording has failed, it stays failed.
pub proof fn lemma_record_all_stops(
    db: DatabaseView,
    pool: Seq<PackageView>,
    order: Seq<PackageRef>,
    files: Seq<Seq<EntryView>>,
    k: int,
    n: int,
)
    requires
        0 <= k <= n,
        record_all(db, pool, order, files, k).1 is Some,
    ensures
        record_all(db, pool, order, files, n) == record_all(db, pool, order, files, k),
    decreases n - k,
{
    if k < n {
        lemma_record_all_stops(db, pool, order, files, k, n - 1);
    }
}

/// A pool keeps its rules when packages change without changing their names
/// or their dependencies.
pub proof fn lemma_update_keeps(a: PoolView, b: PoolView)
    requires
        a.wf(),
        b.order == a.order,
        b.cyclic == a.cyclic,
        b.packages.len() == a.packages.len(),
        forall|g: int|
            0 <= g < a.packages.len() ==> (#[trigger] b.packages[g]).name == a.packages[g].name
                && b.packages[g].dependencies == a.packages[g].dependencies,
    ensures
        b.wf(),
        b.resolved() == a.resolved(),
{
    assert(b.names() =~= a.names());
    assert forall|i: int| 0 <= i < b.order.len() implies b.deps(#[trigger] b.order[i] as int) == a.deps(
        a.order[i] as int,
    ) by {}
    assert(b.closed()) by {
        assert forall|i: int, k: int|
            0 <= i < b.order.len() && 0 <= k < b.deps(b.order[i] as int).len() implies b.order.contains(
            #[trigger] b.deps(b.order[i] as int)[k],
        ) by {
            assert(a.order.contains(a.deps(a.order[i] as int)[k]));
        }
    }
    if !a.cyclic {
        assert forall|i: int, k: int|
            0 <= i < b.order.len() && 0 <= k < b.deps(b.order[i] as int).len() implies first_index(
            b.order,
            #[trigger] b.deps(b.order[i] as int)[k],
        ) < i && b.finished(b.deps(b.order[i] as int)[k] as int) by {
            let y = a.deps(a.order[i] as int)[k];
            assert(first_index(a.order, y) < i);
            assert(a.finished(y as int));
            assert(a.order.contains(y));
            let j = choose|j: int| 0 <= j < a.order.len() && a.order[j] == y;
            assert(a.order[j] < a.packages.len());
        }
    }
    if a.resolved() {
        assert forall|i: int| 0 <= i < b.order.len() implies b.finished(#[trigger] b.order[i] as int) by {
            assert(a.finished(a.order[i] as int));
        }
    }
    if b.resolved() {
        assert forall|i: int| 0 <= i < a.order.len() implies a.finished(#[trigger] a.order[i] as int) by {
            assert(b.finished(b.order[i] as int));
        }
    }
}

/// Installing packages keeps the rules of the pool: names and dependencies
/// stay as they are.
pub proof fn lemma_installed_pool(
    pool: PoolView,
    order: Seq<PackageRef>,
    files: Seq<Seq<EntryView>>,
    from: int,
)
    requires
        pool.wf(),
        0 <= from <= order.len(),
        forall|j: int| 0 <= j < order.len() ==> (#[trigger] order[j]) < pool.packages.len(),
    ensures
        installed_pool(pool, order, files, from).wf(),
        installed_pool(pool, order, files, from).order == pool.order,
        installed_pool(pool, order, files, from).cyclic == pool.cyclic,
        installed_pool(pool, order, files, from).packages.len() == pool.packages.len(),
        forall|g: int|
            0 <= g < pool.packages.len() ==> (#[trigger] installed_pool(
                pool,
                order,
                files,
                from,
            ).packages[g]).name == pool.packages[g].name && installed_pool(
                pool,
                order,
                files,
                from,
            ).packages[g].dependencies == pool.packages[g].dependencies,
        installed_pool(pool, order, files, from).resolved() == pool.resolved(),
    decreases order.len() - from,
{
    if from < order.len() {
        lemma_installed_pool(pool, order, files, from + 1);
    }
    lemma_update_keeps(pool, installed_pool(pool, order, files, from));
}

/// Records the installation of the package behind `package`: `order` lists
/// the local packages that were deployed for it, `files` what each of them
/// owns. In one transaction, every deployed package gets its row and the
/// rows of its files, and the dependencies of `package` are recorded last.
/// On success the transaction is committed and the deployed packages become
/// installed packages in the pool. On any error the database and the pool
/// stay as they were.
pub fn install_package(
    package: PackageRef,
    order: &Vec<PackageRef>,
    files: &Vec<Vec<FSEntry>>,
    pool: &mut PackagePool,
    db_con: &mut DBConnection,
) -> (r: Result<(), LError>)
    requires
        old(pool)@.wf(),
        old(db_con)@.wf(),
    ensures
        final(pool)@.wf(),
        final(db_con)@.wf(),
        match install_spec(old(db_con)@, old(pool)@, package, order@, forests_view(files@)).1 {
            None => r is Ok && final(db_con)@ == install_spec(
                old(db_con)@,
                old(pool)@,
                package,
                order@,
                forests_view(files@),
            ).0 && final(pool)@ == installed_pool(old(pool)@, order@, forests_view(files@), 0),
            Some(e) => r is Err && r->Err_0@ == e && final(db_con)@ == old(db_con)@ && final(pool)@
                == old(pool)@,
        },
{
    let ghost o_db = db_con@;
    let ghost o_pool = pool@;
    let ghost fv = forests_view(files@);
    if order.len() != files.len() {
        return Err(
            LError::new(LErrorClass::Unknown, "Every deployed package needs its list of files"),
        );
    }
    if package >= pool.packages.len() {
        return Err(
            LError::new(
                LErrorClass::PackageNotFound,
                "A dependency refers to a package that is not in the pool",
            ),
        );
    }
    match &pool.packages[package] {
        PackageVariant::Remote(remote) => {
            return Err(remote_refused(remote));
        },
        PackageVariant::Local(local) => {
            let mut deployed = false;
            let mut j: usize = 0;
            while j < order.len()
                invariant
                    j <= order.len(),
                    deployed ==> order@.contains(package),
                    !deployed ==> forall|a: int| 0 <= a < j ==> order@[a] != package,
                decreases order.len() - j,
            {
                if order[j] == package {
                    assert(order@[j as int] == package);
                    deployed = true;
                }
                j = j + 1;
            }
            if !deployed {
                let mut text = String::from_str("Package has not been deployed: ");
                let fq = fq_name_string(local.name(), local.version(), local.real_version());
                text.append(fq.as_str());
                return Err(LError::new(LErrorClass::UnexpectedPackageVariant, text.as_str()));
            }
        },
        PackageVariant::Installed(_) => {},
    }
    let mut transaction = db_con.new_transaction();
    let mut staged: Vec<PackageVariant> = Vec::new();
    let mut i: usize = 0;
    while i < order.len()
        invariant
            i <= order.len(),
            order.len() == files.len(),
            o_db == db_con@,
            o_db == old(db_con)@,
            o_pool == pool@,
            o_pool == old(pool)@,
            o_pool.wf(),
            fv == forests_view(files@),
            fv.len() == order.len(),
            o_db.wf(),
            transaction@.wf(),
            package < o_pool.packages.len(),
            !(o_pool.packages[package as int].extra is Remote),
            o_pool.packages[package as int].extra is Local ==> order@.contains(package),
            record_all(o_db, o_pool.packages, order@, fv, i as int) == (transaction@, None::<LErrorView>),
            staged@.len() == i,
            forall|j: int|
                0 <= j < i ==> (#[trigger] order@[j]) < o_pool.packages.len() && staged@[j]@
                    == installed_view(o_pool.packages[order@[j] as int], fv[j]),
        decreases order.len() - i,
    {
        let h = order[i];
        let ghost before = transaction@;
        if h >= pool.packages.len() {
            proof {
                lemma_record_all_stops(o_db, o_pool.packages, order@, fv, i + 1, order.len() as int);
            }
            return Err(
                LError::new(
                    LErrorClass::PackageNotFound,
                    "A dependency refers to a package that is not in the pool",
                ),
            );
        }
        let local = match pool.packages[h].as_local() {
            Ok(l) => l,
            Err(e) => {
                proof {
                    lemma_record_all_stops(
                        o_db,
                        o_pool.packages,
                        order@,
                        fv,
                        i + 1,
                        order.len() as int,
                    );
                }
                return Err(e);
            },
        };
        let installed = InstalledPackage::from_local(local, duplicate_forest(&files[i]));
        let variant = PackageVariant::Installed(installed);
        assert(variant@ == installed_view(o_pool.packages[h as int], fv[i as int]));
        match transaction.insert_package(&variant) {
            Ok(()) => {},
            Err(e) => {
                proof {
                    lemma_record_all_stops(
                        o_db,
                        o_pool.packages,
                        order@,
                        fv,
                        i + 1,
                        order.len() as int,
                    );
                }
                return Err(e);
            },
        }
        let inserted = match &variant {
            PackageVariant::Installed(p) => transaction.insert_package_files(p),
            _ => Ok(()),
        };
        match inserted {
            Ok(()) => {},
            Err(e) => {
                proof {
                    lemma_record_all_stops(
                        o_db,
                        o_pool.packages,
                        order@,
                        fv,
                        i + 1,
                        order.len() as int,
                    );
                }
                return Err(e);
            },
        }
        staged.push(variant);
        i = i + 1;
    }
    match transaction.insert_package_dependencies(&pool.packages[package], pool) {
        Ok(()) => {},
        Err(e) => {
            return Err(e);
        },
    }
    transaction.commit(db_con);
    let mut j: usize = order.len();
    proof {
        lemma_installed_pool(o_pool, order@, fv, order.len() as int);
    }
    while j > 0
        invariant
            j <= order.len(),
            o_pool.wf(),
            staged@.len() == j,
            fv.len() == order.len(),
            forall|a: int| 0 <= a < order.len() ==> (#[trigger] order@[a]) < o_pool.packages.len(),
            forall|a: int|
                0 <= a < j ==> (#[trigger] staged@[a])@ == installed_view(
                    o_pool.packages[order@[a] as int],
                    fv[a],
                ),
            pool@ == installed_pool(o_pool, order@, fv, j as int),
        decreases j,
    {
        proof {
            lemma_installed_pool(o_pool, order@, fv, j as int);
        }
        let variant = staged.pop().unwrap();
        j = j - 1;
        pool.replace(order[j], variant);
    }
    proof {
        lemma_installed_pool(o_pool, order@, fv, 0);
    }
    Ok(())
}

/// Once a deployed package that had no row was recorded, the paths that it
/// owns in the database are exactly the paths of the flat listing of its files.
pub proof fn lemma_recorded_paths(db: DatabaseView, pool: Seq<PackageView>, h: PackageRef, files: Seq<EntryView>)
    requires
        db.wf(),
        record_one(db, pool, h, files).1 is None,
        h < pool.len(),
        !db.has_name(pool[h as int].name),
    ensures
        record_one(db, pool, h, files).0.id_of(pool[h as int].name) == Some(
            db.packages.len() as int + 1,
        ),
        record_one(db, pool, h, files).0.owned_paths(db.packages.len() as int + 1) == flat_paths(
            flatten_forest(files, Seq::empty()),
        ),
{
    let p = installed_view(pool[h as int], files);
    let d1 = db.insert_package(p);
    let id = db.packages.len() as int + 1;
    lemma_insert_package_wf(db, p);
    let flat = flatten_forest(files, Seq::empty());
    assert forall|i: int| 0 <= i < d1.files.len() implies (#[trigger] d1.files[i]).package != id by {
        assert(db.has_package(db.files[i].package));
    }
    lemma_owned_paths(d1, id, flat);
    crate::db::fsentries::lemma_with_files_keeps(d1, id, flat);
    let d2 = d1.with_files(id, flat).0;
    assert(d2.names() =~= d1.names());
}

/// Once a deployed package that had no row was recorded with the index of
/// its data directory, every regular file of that directory has a row at its
/// path with the hash of its content.
pub proof fn lemma_recorded_hashes(
    db: DatabaseView,
    pool: Seq<PackageView>,
    h: PackageRef,
    data: Seq<crate::util::fs::FsNode>,
    path: Seq<char>,
    content: Seq<u8>,
)
    requires
        db.wf(),
        h < pool.len(),
        !db.has_name(pool[h as int].name),
        record_one(db, pool, h, crate::util::fs::index_forest(data)).1 is None,
        crate::util::fs::tree_has_file(data, Seq::empty(), path, content),
    ensures
        exists|i: int|
            0 <= i < record_one(db, pool, h, crate::util::fs::index_forest(data)).0.files.len() && (
            #[trigger] record_one(db, pool, h, crate::util::fs::index_forest(data)).0.files[i]).path
                == path && record_one(db, pool, h, crate::util::fs::index_forest(data)).0.files[i].hash
                == Some(crate::util::hash::digest_text(content)) && record_one(
                db,
                pool,
                h,
                crate::util::fs::index_forest(data),
            ).0.files[i].package == db.packages.len() + 1,
{
    let files = crate::util::fs::index_forest(data);
    let p = installed_view(pool[h as int], files);
    let d1 = db.insert_package(p);
    let id = db.packages.len() as int + 1;
    lemma_insert_package_wf(db, p);
    let flat = flatten_forest(files, Seq::empty());
    crate::util::fs::lemma_index_hashes(data, Seq::empty(), path, content);
    let k = choose|k: int|
        0 <= k < flat.len() && flat[k] == crate::util::fs::file_entry(path, content);
    crate::db::fsentries::lemma_with_files_keeps(d1, id, flat);
    let d2 = d1.with_files(id, flat).0;
    let n = d1.files.len() as int;
    assert(pool[h as int].extra is Local);
    assert(d1.id_of(p.name) == Some(id));
    assert(d1.with_files(id, flat).1);
    assert(record_one(db, pool, h, files).0 == d2);
    assert(d2.files[n + k].path == flat[k].path);
    assert(d2.files[n + k].hash == flat[k].hash);
    assert(d2.files[n + k].package == id);
}

/// Installing again what is installed changes nothing: for a package of the
/// pool that stands for an installed package, with its recorded dependencies
/// resolved, and whose hash no other package row has, installing with
/// nothing deployed leaves the tables as they are.
pub proof fn lemma_installed_again(db: DatabaseView, pool: PoolView, g: PackageRef)
    requires
        db.wf(),
        g < pool.packages.len(),
        pool.finished(g as int),
        crate::util::dependencies::deps_valid(pool, g as int),
        db.has_name(pool.packages[g as int].name),
        crate::util::dependencies::before(pool, g as int) == crate::util::dependencies::stub_view(
            db,
            db.position(pool.packages[g as int].name),
        ),
        forall|j: int|
            0 <= j < db.packages.len() && (#[trigger] db.packages[j]).hash == pool.packages[g as int].hash
                ==> j == db.position(pool.packages[g as int].name),
    ensures
        install_spec(db, pool, g, Seq::empty(), Seq::empty()) == (db, None::<LErrorView>),
{
    let p = pool.packages[g as int];
    let i = db.position(p.name);
    lemma_first_index(db.names(), p.name);
    assert(0 <= i < db.packages.len());
    let hs = pool.deps(g as int);
    let names = crate::package::packageref::resolved_names(pool.packages, p.dependencies)->Ok_0;
    let stub = crate::util::dependencies::stub_view(db, i);
    assert(crate::util::dependencies::before(pool, g as int).hash == p.hash);
    assert(stub.hash == db.packages[i].hash);
    assert(crate::util::dependencies::before(pool, g as int).dependencies == stub.dependencies);
    assert(crate::util::dependencies::names_behind(pool.packages, hs) == db.dependency_names(
        db.packages[i].hash,
    ));
    assert(names =~= db.dependency_names(db.packages[i].hash));
    assert forall|x: int| 0 <= x < names.len() implies db.has_name(#[trigger] names[x])
        && db.dependencies.contains(
        DependencyRow { depender: db.packages[i].id as i64, dependency: db.id_of(names[x])->Some_0 as i64 },
    ) by {
        crate::db::packages::lemma_recorded_pair(db, i, x);
    }
    assert forall|x: int| 0 <= x < db.missing(names).len() implies db.missing(names)[x] != true by {
        assert(db.has_name(names[x]));
    }
    crate::util::search::lemma_first_index_none(db.missing(names), true);
    crate::db::packages::lemma_with_edges_present(db, db.packages[i].id, names, names.len() as int);
    let empty_orders = Seq::<PackageRef>::empty();
    let empty_files = Seq::<Seq<EntryView>>::empty();
    assert(record_all(db, pool.packages, empty_orders, empty_files, 0) == (db, None::<LErrorView>));
}

} // verus!
