//! Resolving the dependencies of packages into a pool, in install order.
use vstd::prelude::*;
use vstd::string::StringExecFns;
use crate::db::{DBTransaction, Database, DatabaseView};
use crate::error::{LError, LErrorClass, LErrorView};
use crate::mirror::{
    find_first, lookup, mirrors_view, not_found_error, not_loaded_error, package_names, Lookup,
    Mirror, MirrorView,
};
pub use crate::package::packageref::get_root_packages;
use crate::package::packageref::{dangling_error, PoolView};
use crate::package::{
    dependencies_error, CorePackage, Dependencies, DependenciesView, InstalledPackage, PackageExtra, PackagePool,
    PackageRef, PackageVariant, PackageView,
};
use crate::util::search::{distinct, first_index, lemma_first_index, lemma_first_index_is};

verus! {

/// The names of all packages of the loaded mirrors, mirror after mirror.
pub open spec fn catalog_names(ms: Seq<MirrorView>) -> Seq<Seq<char>>
    decreases ms.len(),
{
    if ms.len() == 0 {
        Seq::empty()
    } else {
        catalog_names(ms.drop_last()) + match ms.last().packages {
            Some(ps) => package_names(ps),
            None => Seq::empty(),
        }
    }
}

/// The names of all packages that can be found at all: those of the
/// installed-package index and those of the loaded mirrors.
pub open spec fn source_names(ms: Seq<MirrorView>, db: DatabaseView) -> Seq<Seq<char>> {
    db.names() + catalog_names(ms)
}

/// How many entries of `src` are not among `present`.
pub open spec fn absent(src: Seq<Seq<char>>, present: Seq<Seq<char>>) -> nat
    decreases src.len(),
{
    if src.len() == 0 {
        0
    } else {
        absent(src.drop_last(), present) + if present.contains(src.last()) {
            0nat
        } else {
            1nat
        }
    }
}

/// How many findable names would still be outside the plan once `name` is in it.
pub open spec fn remaining(pool: PoolView, name: Seq<char>, ms: Seq<MirrorView>, db: DatabaseView) -> nat {
    absent(source_names(ms, db), pool.names().push(name))
}

/// With more names present, no more names are absent.
pub proof fn lemma_absent_mono(src: Seq<Seq<char>>, p: Seq<Seq<char>>, q: Seq<Seq<char>>)
    requires
        forall|x: Seq<char>| p.contains(x) ==> q.contains(x),
    ensures
        absent(src, q) <= absent(src, p),
    decreases src.len(),
{
    if src.len() > 0 {
        lemma_absent_mono(src.drop_last(), p, q);
    }
}

/// With a further name of `src` present, fewer names are absent.
pub proof fn lemma_absent_strict(src: Seq<Seq<char>>, p: Seq<Seq<char>>, q: Seq<Seq<char>>, x: Seq<char>)
    requires
        forall|y: Seq<char>| p.contains(y) ==> q.contains(y),
        src.contains(x),
        !p.contains(x),
        q.contains(x),
    ensures
        absent(src, q) < absent(src, p),
    decreases src.len(),
{
    if src.len() > 0 {
        if src.last() == x {
            lemma_absent_mono(src.drop_last(), p, q);
        } else {
            let k = choose|k: int| 0 <= k < src.len() && src[k] == x;
            assert(src.drop_last()[k] == x);
            lemma_absent_strict(src.drop_last(), p, q, x);
        }
    }
}

/// The name of every package of a loaded mirror is among the catalog names.
pub proof fn lemma_catalog_names(ms: Seq<MirrorView>, k: int, i: int)
    requires
        0 <= k < ms.len(),
        ms[k].packages is Some,
        0 <= i < ms[k].packages->Some_0.len(),
    ensures
        catalog_names(ms).contains(ms[k].packages->Some_0[i].name),
    decreases ms.len(),
{
    let name = ms[k].packages->Some_0[i].name;
    if k == ms.len() - 1 {
        let ps = ms.last().packages->Some_0;
        let before = catalog_names(ms.drop_last());
        assert(package_names(ps)[i] == name);
        assert(catalog_names(ms)[before.len() + i] == name);
    } else {
        lemma_catalog_names(ms.drop_last(), k, i);
        let before = catalog_names(ms.drop_last());
        let j = choose|j: int| 0 <= j < before.len() && before[j] == name;
        assert(catalog_names(ms)[j] == name);
    }
}

/// Whether `new` is `old` after more resolving: the plan of `old` is the
/// start of the plan of `new`, every handle keeps its package's name, the
/// packages of the plan of `old` are unchanged, and a cycle that was met stays met.
pub open spec fn extends(old: PoolView, new: PoolView) -> bool {
    &&& old.order.len() <= new.order.len()
    &&& new.order.take(old.order.len() as int) == old.order
    &&& old.packages.len() <= new.packages.len()
    &&& forall|g: int|
        0 <= g < old.packages.len() ==> (#[trigger] new.packages[g]).name == old.packages[g].name
    &&& forall|g: int|
        0 <= g < old.packages.len() && old.order.contains(g as usize) ==> #[trigger] new.packages[g]
            == old.packages[g]
    &&& old.cyclic ==> new.cyclic
}

/// A pool extends itself.
pub proof fn lemma_extends_refl(a: PoolView)
    ensures
        extends(a, a),
{
    assert(a.order.take(a.order.len() as int) =~= a.order);
}

/// Extending is transitive.
pub proof fn lemma_extends_trans(a: PoolView, b: PoolView, c: PoolView)
    requires
        extends(a, b),
        extends(b, c),
    ensures
        extends(a, c),
{
    assert(c.order.take(a.order.len() as int) =~= a.order) by {
        assert forall|i: int| 0 <= i < a.order.len() implies c.order[i] == a.order[i] by {
            assert(c.order.take(b.order.len() as int)[i] == b.order[i]);
            assert(b.order.take(a.order.len() as int)[i] == a.order[i]);
        }
    }
    assert forall|g: int|
        0 <= g < a.packages.len() && a.order.contains(g as usize) implies #[trigger] c.packages[g]
        == a.packages[g] by {
        let i = choose|i: int| 0 <= i < a.order.len() && a.order[i] == g as usize;
        assert(b.order.take(a.order.len() as int)[i] == a.order[i]);
        assert(b.order.contains(g as usize));
    }
}

/// The names of the plan of an extended pool start with the names of the
/// plan it extends.
pub proof fn lemma_extends_names(a: PoolView, b: PoolView)
    requires
        a.handles_valid(),
        extends(a, b),
    ensures
        b.names().len() >= a.names().len(),
        b.names().take(a.names().len() as int) == a.names(),
        forall|x: Seq<char>| a.names().contains(x) ==> b.names().contains(x),
{
    assert forall|i: int| 0 <= i < a.order.len() implies b.names()[i] == a.names()[i] by {
        assert(b.order.take(a.order.len() as int)[i] == a.order[i]);
        assert(a.order.contains(a.order[i]));
    }
    assert(b.names().take(a.names().len() as int) =~= a.names());
    assert forall|x: Seq<char>| a.names().contains(x) implies b.names().contains(x) by {
        let i = choose|i: int| 0 <= i < a.names().len() && a.names()[i] == x;
        assert(b.names()[i] == x);
    }
}

/// In a valid pool, no handle stands twice in the plan.
pub proof fn lemma_order_distinct(p: PoolView)
    requires
        p.handles_valid(),
        p.names_unique(),
    ensures
        distinct(p.order),
        forall|i: int| 0 <= i < p.order.len() ==> first_index(p.order, #[trigger] p.order[i]) == i,
{
    assert forall|i: int, j: int| 0 <= i < j < p.order.len() implies p.order[i] != p.order[j] by {
        assert(p.names()[i] != p.names()[j]);
    }
    assert forall|i: int| 0 <= i < p.order.len() implies first_index(
        p.order,
        #[trigger] p.order[i],
    ) == i by {
        lemma_first_index_is(p.order, p.order[i], i);
    }
}

/// A pool keeps its rules when a package gets a handle without entering the plan.
pub proof fn lemma_add_keeps(a: PoolView, b: PoolView)
    requires
        a.wf(),
        b.order == a.order,
        b.cyclic == a.cyclic,
        b.packages.len() >= a.packages.len(),
        b.packages.take(a.packages.len() as int) == a.packages,
    ensures
        b.wf(),
        b.names() == a.names(),
        b.hashes() == a.hashes(),
        extends(a, b),
{
    assert forall|g: int| 0 <= g < a.packages.len() implies #[trigger] b.packages[g]
        == a.packages[g] by {
        assert(b.packages.take(a.packages.len() as int)[g] == a.packages[g]);
    }
    assert(b.names() =~= a.names());
    assert(b.hashes() =~= a.hashes());
    assert(a.order.take(a.order.len() as int) =~= a.order);
    assert forall|i: int| 0 <= i < b.order.len() implies b.deps(#[trigger] b.order[i] as int) == a.deps(
        a.order[i] as int,
    ) by {}
    assert(b.closed()) by {
        assert forall|i: int, k: int|
            0 <= i < b.order.len() && 0 <= k < b.deps(b.order[i] as int).len() implies b.order.contains(
            #[trigger] b.deps(b.order[i] as int)[k],
        ) by {
            assert(b.deps(b.order[i] as int) == a.deps(a.order[i] as int));
            assert(a.order.contains(a.deps(a.order[i] as int)[k]));
        }
    }
    if !a.cyclic {
        assert forall|i: int, k: int|
            0 <= i < b.order.len() && 0 <= k < b.deps(b.order[i] as int).len() implies first_index(
            b.order,
            #[trigger] b.deps(b.order[i] as int)[k],
        ) < i && b.finished(b.deps(b.order[i] as int)[k] as int) by {
            assert(b.deps(b.order[i] as int) == a.deps(a.order[i] as int));
            let y = a.deps(a.order[i] as int)[k];
            assert(first_index(a.order, y) < i);
            assert(a.finished(y as int));
            assert(a.order.contains(y));
            let j = choose|j: int| 0 <= j < a.order.len() && a.order[j] == y;
            assert(a.order[j] < a.packages.len());
        }
    }
}

/// The pool after the package at place `p` of the plan got the resolved
/// dependencies `hs` and was moved to the end of the plan.
pub open spec fn finish(pool: PoolView, p: int, hs: Seq<PackageRef>) -> PoolView {
    let h = pool.order[p];
    PoolView {
        packages: pool.packages.update(
            h as int,
            PackageView { dependencies: DependenciesView::Resolved(hs), ..pool.packages[h as int] },
        ),
        order: pool.order.remove(p).push(h),
        cyclic: pool.cyclic,
    }
}

/// Finishing a package keeps the rules of the pool: where the package was
/// unfinished, its new dependencies are all in the plan, and, unless a cycle
/// was met, all of them are finished.
pub proof fn lemma_finish(pool: PoolView, p: int, hs: Seq<PackageRef>)
    requires
        pool.wf(),
        0 <= p < pool.order.len(),
        !pool.finished(pool.order[p] as int),
        forall|j: int| 0 <= j < hs.len() ==> pool.order.contains(#[trigger] hs[j]),
        !pool.cyclic ==> forall|j: int| 0 <= j < hs.len() ==> pool.finished(#[trigger] hs[j] as int),
    ensures
        finish(pool, p, hs).wf(),
        forall|x: Seq<char>| pool.names().contains(x) <==> finish(pool, p, hs).names().contains(x),
        forall|g: PackageRef| pool.order.contains(g) <==> finish(pool, p, hs).order.contains(g),
{
    let f = finish(pool, p, hs);
    let h = pool.order[p];
    let n = pool.order.len() as int;
    lemma_order_distinct(pool);
    // How places of the new plan relate to places of the old one.
    let back = |i: int| if i < p { i } else if i < n - 1 { i + 1 } else { p };
    assert forall|i: int| 0 <= i < n implies #[trigger] f.order[i] == pool.order[back(i)] by {}
    assert forall|i: int| 0 <= i < n implies #[trigger] f.names()[i] == pool.names()[back(i)] by {
        assert(f.order[i] == pool.order[back(i)]);
    }
    assert(f.handles_valid()) by {
        assert forall|i: int| 0 <= i < f.order.len() implies #[trigger] f.order[i]
            < f.packages.len() by {
            assert(f.order[i] == pool.order[back(i)]);
        }
    }
    assert(f.names_unique()) by {
        assert forall|i: int, j: int| 0 <= i < j < f.names().len() implies f.names()[i]
            != f.names()[j] by {
            assert(f.names()[i] == pool.names()[back(i)]);
            assert(f.names()[j] == pool.names()[back(j)]);
            let a = back(i);
            let b = back(j);
            if a < b {
                assert(pool.names()[a] != pool.names()[b]);
            } else {
                assert(pool.names()[b] != pool.names()[a]);
            }
        }
    }
    assert forall|g: PackageRef| pool.order.contains(g) <==> f.order.contains(g) by {
        if pool.order.contains(g) {
            let i = choose|i: int| 0 <= i < n && pool.order[i] == g;
            let j = if i < p { i } else if i == p { n - 1 } else { i - 1 };
            assert(f.order[j] == pool.order[back(j)]);
            assert(f.order[j] == g);
        }
        if f.order.contains(g) {
            let i = choose|i: int| 0 <= i < n && f.order[i] == g;
            assert(f.order[i] == pool.order[back(i)]);
        }
    }
    assert forall|x: Seq<char>| pool.names().contains(x) <==> f.names().contains(x) by {
        if pool.names().contains(x) {
            let i = choose|i: int| 0 <= i < n && pool.names()[i] == x;
            let j = if i < p { i } else if i == p { n - 1 } else { i - 1 };
            assert(f.names()[j] == pool.names()[back(j)]);
            assert(f.names()[j] == x);
        }
        if f.names().contains(x) {
            let i = choose|i: int| 0 <= i < n && f.names()[i] == x;
            assert(f.names()[i] == pool.names()[back(i)]);
        }
    }
    // Dependencies of the packages of the new plan.
    assert forall|i: int| 0 <= i < n - 1 implies f.deps(#[trigger] f.order[i] as int) == pool.deps(
        pool.order[back(i)] as int,
    ) by {
        assert(f.order[i] == pool.order[back(i)]);
        assert(pool.order[back(i)] != h);
    }
    assert(f.order[n - 1] == h);
    assert(f.deps(h as int) == hs);
    assert(f.closed()) by {
        assert forall|i: int, k: int|
            0 <= i < f.order.len() && 0 <= k < f.deps(f.order[i] as int).len() implies f.order.contains(
            #[trigger] f.deps(f.order[i] as int)[k],
        ) by {
            if i < n - 1 {
                assert(f.deps(f.order[i] as int) == pool.deps(pool.order[back(i)] as int));
                assert(pool.order.contains(pool.deps(pool.order[back(i)] as int)[k]));
            } else {
                assert(pool.order.contains(hs[k]));
            }
        }
    }
    if !pool.cyclic {
        lemma_order_distinct(f);
        assert forall|i: int, k: int|
            0 <= i < f.order.len() && 0 <= k < f.deps(f.order[i] as int).len() implies first_index(
            f.order,
            #[trigger] f.deps(f.order[i] as int)[k],
        ) < i && f.finished(f.deps(f.order[i] as int)[k] as int) by {
            let y = f.deps(f.order[i] as int)[k];
            if i < n - 1 {
                let a = back(i);
                assert(f.deps(f.order[i] as int) == pool.deps(pool.order[a] as int));
                let q = first_index(pool.order, y);
                assert(q < a);
                assert(pool.finished(y as int));
                lemma_first_index(pool.order, y);
                assert(pool.order[q] == y);
                assert(y != h);
                let j = if q < p { q } else { q - 1 };
                assert(f.order[j] == pool.order[back(j)]);
                assert(first_index(f.order, f.order[j]) == j);
            } else {
                assert(y == hs[k]);
                assert(pool.finished(y as int));
                assert(y != h);
                let q = choose|q: int| 0 <= q < n && pool.order[q] == y;
                let j = if q < p { q } else { q - 1 };
                assert(f.order[j] == pool.order[back(j)]);
                assert(first_index(f.order, f.order[j]) == j);
            }
        }
    }
}

/// Whether a package named `name` can be found: the mirrors have one, in the
/// order of the mirrors and before one that is not loaded, or no mirror has
/// one and it is installed.
pub open spec fn findable(ms: Seq<MirrorView>, db: DatabaseView, name: Seq<char>) -> bool {
    match lookup(ms, name) {
        Lookup::Found(_, _) => true,
        Lookup::Missing => db.has_name(name),
        Lookup::NotLoaded(_) => false,
    }
}

/// Whether the dependencies of `p` are names of `reach` that can all be
/// found. What an installed package depends on is found where it is installed.
pub open spec fn resolvable(ms: Seq<MirrorView>, db: DatabaseView, reach: Set<Seq<char>>, p: PackageView) -> bool {
    match p.dependencies {
        DependenciesView::Unresolved(names) => forall|j: int|
            0 <= j < names.len() ==> reach.contains(#[trigger] names[j]) && (findable(ms, db, names[j])
                || (p.extra is Installed && db.has_name(names[j]))),
        DependenciesView::Resolved(_) => false,
    }
}

/// Whether resolving cannot fail for want of a package among the names
/// `reach`: the package that resolving takes for a name of `reach` depends
/// only on names of `reach` that can be found.
pub open spec fn sources_ok(ms: Seq<MirrorView>, db: DatabaseView, reach: Set<Seq<char>>) -> bool {
    forall|q: PackageView|
        #[trigger] sourced(ms, db, q) && reach.contains(q.name) ==> resolvable(ms, db, reach, q)
}

/// Whether resolving the package `p` cannot fail: there is a set of names
/// with the name of `p` such that `p`, unless an installed package takes its
/// place, and the package that resolving takes for each name of the set
/// depend only on names of the set that can be found. The set need hold no
/// more than the names that resolving `p` comes to.
pub open spec fn able(ms: Seq<MirrorView>, db: DatabaseView, reach: Set<Seq<char>>, p: PackageView) -> bool {
    &&& sources_ok(ms, db, reach)
    &&& reach.contains(p.name)
    &&& enters_itself(db, p) ==> resolvable(ms, db, reach, p)
}

/// Every recorded dependency name is the name of a package row.
pub proof fn lemma_dependency_names_known(db: DatabaseView, hash: Seq<char>, j: int)
    requires
        0 <= j <= db.packages.len(),
    ensures
        forall|x: int|
            0 <= x < db.dependency_names_upto(hash, j).len() ==> db.names().contains(
                #[trigger] db.dependency_names_upto(hash, j)[x],
            ),
    decreases j,
{
    if j > 0 {
        lemma_dependency_names_known(db, hash, j - 1);
        lemma_edge_names_known(db, hash, j - 1, db.dependencies.len() as int);
        let before = db.dependency_names_upto(hash, j - 1);
        let here = db.edge_names(hash, j - 1, db.dependencies.len() as int);
        assert forall|x: int| 0 <= x < db.dependency_names_upto(hash, j).len() implies db.names().contains(
            #[trigger] db.dependency_names_upto(hash, j)[x],
        ) by {
            if x < before.len() {
                assert(db.dependency_names_upto(hash, j)[x] == before[x]);
            } else {
                assert(db.dependency_names_upto(hash, j)[x] == here[x - before.len()]);
            }
        }
    }
}

/// Every name that a package row contributes as a dependency is its own name.
pub proof fn lemma_edge_names_known(db: DatabaseView, hash: Seq<char>, j: int, k: int)
    requires
        0 <= j < db.packages.len(),
        0 <= k,
    ensures
        forall|x: int|
            0 <= x < db.edge_names(hash, j, k).len() ==> db.names().contains(
                #[trigger] db.edge_names(hash, j, k)[x],
            ),
    decreases k,
{
    if k > 0 {
        lemma_edge_names_known(db, hash, j, k - 1);
        assert(db.names()[j] == db.packages[j].name);
        let before = db.edge_names(hash, j, k - 1);
        assert forall|x: int| 0 <= x < db.edge_names(hash, j, k).len() implies db.names().contains(
            #[trigger] db.edge_names(hash, j, k)[x],
        ) by {
            if x < before.len() {
                assert(db.edge_names(hash, j, k)[x] == before[x]);
            }
        }
    }
}

/// Whether `p` fits the layers: its name is one of `within`, and so is
/// every name that it depends on, each with a smaller rank than its own name.
pub open spec fn ranked(rank: spec_fn(Seq<char>) -> nat, within: Set<Seq<char>>, p: PackageView) -> bool {
    &&& within.contains(p.name)
    &&& match p.dependencies {
        DependenciesView::Unresolved(names) => forall|j: int|
            0 <= j < names.len() ==> within.contains(#[trigger] names[j]) && rank(names[j]) < rank(
                p.name,
            ),
        DependenciesView::Resolved(_) => true,
    }
}

/// Whether the packages that resolving comes to lie in layers: `within`
/// holds names, and the package that resolving takes for a name of `within`
/// depends only on names of `within`, each of a lower rank than its own, so
/// that no such package depends on itself through others.
pub open spec fn layered(
    rank: spec_fn(Seq<char>) -> nat,
    within: Set<Seq<char>>,
    ms: Seq<MirrorView>,
    db: DatabaseView,
) -> bool {
    forall|q: PackageView| #[trigger] sourced(ms, db, q) && within.contains(q.name) ==> ranked(rank, within, q)
}

/// Whether no cycle was met in the plan of `pool` so far.
pub open spec fn tidy(pool: PoolView) -> bool {
    !pool.cyclic
}

/// Whether every unfinished package of the plan has a rank above `bound`.
pub open spec fn above(rank: spec_fn(Seq<char>) -> nat, pool: PoolView, bound: nat) -> bool {
    forall|g: PackageRef|
        #[trigger] pool.order.contains(g) && g < pool.packages.len() && !pool.finished(g as int)
            ==> rank(pool.packages[g as int].name) > bound
}

/// What holds in addition while the package behind `h` is visited and the
/// packages lie in layers: no cycle was met, and every unfinished package
/// of the plan other than `h` has a rank above the rank of `h`.
#[verifier::opaque]
pub open spec fn orderly(
    rank: spec_fn(Seq<char>) -> nat,
    within: Set<Seq<char>>,
    cur: PoolView,
    h: PackageRef,
) -> bool {
    &&& tidy(cur)
    &&& h < cur.packages.len()
    &&& ranked(rank, within, cur.packages[h as int]) || cur.finished(h as int)
    &&& forall|g: PackageRef|
        #[trigger] cur.order.contains(g) && g < cur.packages.len() && !cur.finished(g as int) ==> g
            == h || rank(cur.packages[g as int].name) > rank(cur.packages[h as int].name)
}

/// An orderly visit begins in a tidy pool whose unfinished packages rank
/// above the package that enters the plan.
pub proof fn lemma_orderly_start(
    rank: spec_fn(Seq<char>) -> nat,
    within: Set<Seq<char>>,
    o: PoolView,
    h: PackageRef,
)
    requires
        tidy(o),
        h < o.packages.len(),
        above(rank, o, rank(o.packages[h as int].name)),
        ranked(rank, within, o.packages[h as int]),
    ensures
        orderly(rank, within, entered(o, h), h),
{
    reveal(orderly);
    let m = entered(o, h);
    assert forall|g: PackageRef|
        #[trigger] m.order.contains(g) && g < m.packages.len() && !m.finished(g as int) implies g == h
        || rank(m.packages[g as int].name) > rank(m.packages[h as int].name) by {
        let i = choose|i: int| 0 <= i < m.order.len() && m.order[i] == g;
        if i < o.order.len() {
            assert(o.order[i] == g);
            assert(o.order.contains(g));
        }
    }
}

/// An orderly visit goes on when a package gets a handle without entering
/// the plan; the unfinished packages rank above every dependency of the
/// visited package.
pub proof fn lemma_orderly_located(
    rank: spec_fn(Seq<char>) -> nat,
    within: Set<Seq<char>>,
    before: PoolView,
    located: PoolView,
    h: PackageRef,
    d: Seq<char>,
)
    requires
        orderly(rank, within, before, h),
        located.order == before.order,
        located.cyclic == before.cyclic,
        located.packages.len() >= before.packages.len(),
        located.packages.take(before.packages.len() as int) == before.packages,
        before.handles_valid(),
        rank(d) < rank(before.packages[h as int].name),
    ensures
        orderly(rank, within, located, h),
        tidy(located),
        above(rank, located, rank(d)),
{
    reveal(orderly);
    assert forall|g: int| 0 <= g < before.packages.len() implies #[trigger] located.packages[g]
        == before.packages[g] by {
        assert(located.packages.take(before.packages.len() as int)[g] == before.packages[g]);
    }
    assert forall|g: PackageRef| #[trigger] located.order.contains(g) implies g
        < before.packages.len() by {
        let i = choose|i: int| 0 <= i < before.order.len() && before.order[i] == g;
        assert(before.order[i] < before.packages.len());
    }
}

/// In an orderly visit, a package of the plan whose name ranks below the
/// visited package is finished.
pub proof fn lemma_orderly_found(
    rank: spec_fn(Seq<char>) -> nat,
    within: Set<Seq<char>>,
    cur: PoolView,
    h: PackageRef,
    pos: int,
)
    requires
        orderly(rank, within, cur, h),
        cur.handles_valid(),
        0 <= pos < cur.order.len(),
        rank(cur.names()[pos]) < rank(cur.packages[h as int].name),
    ensures
        cur.finished(cur.order[pos] as int),
{
    reveal(orderly);
    let g = cur.order[pos];
    assert(cur.order.contains(g));
    assert(g < cur.packages.len());
}

/// An orderly visit goes on when more packages were resolved into a pool
/// that stayed tidy.
pub proof fn lemma_orderly_resolved(
    rank: spec_fn(Seq<char>) -> nat,
    within: Set<Seq<char>>,
    located: PoolView,
    after: PoolView,
    h: PackageRef,
)
    requires
        orderly(rank, within, located, h),
        located.handles_valid(),
        located.order.contains(h),
        after.handles_valid(),
        extends(located, after),
        added_finished(located, after),
        tidy(after),
    ensures
        orderly(rank, within, after, h),
{
    reveal(orderly);
    assert(after.packages[h as int] == located.packages[h as int]);
    assert forall|g: PackageRef|
        #[trigger] after.order.contains(g) && g < after.packages.len() && !after.finished(
            g as int,
        ) implies g == h || rank(after.packages[g as int].name) > rank(
        after.packages[h as int].name,
    ) by {
        let i = choose|i: int| 0 <= i < after.order.len() && after.order[i] == g;
        if i < located.order.len() {
            assert(after.order.take(located.order.len() as int)[i] == located.order[i]);
            assert(located.order.contains(g));
            assert(located.order[i] < located.packages.len());
            assert(after.packages[g as int] == located.packages[g as int]);
        } else {
            assert(after.finished(after.order[i] as int));
        }
    }
}

/// An orderly visit ends in a tidy pool.
pub proof fn lemma_orderly_finish(
    rank: spec_fn(Seq<char>) -> nat,
    within: Set<Seq<char>>,
    o: PoolView,
    mid: PoolView,
    h: PackageRef,
    hs: Seq<PackageRef>,
)
    requires
        orderly(rank, within, mid, h),
        visiting(o, mid, h, hs),
    ensures
        tidy(finish(mid, o.order.len() as int, hs)),
        above(rank, o, rank(o.packages[h as int].name)) ==> above(
            rank,
            finish(mid, o.order.len() as int, hs),
            rank(o.packages[h as int].name),
        ),
{
    reveal(orderly);
    reveal(visiting);
    let entry = o.order.len() as int;
    let f = finish(mid, entry, hs);
    lemma_finish(mid, entry, hs);
    assert(mid.packages[h as int].name == o.packages[h as int].name);
    assert forall|g: PackageRef|
        #[trigger] f.order.contains(g) && g < f.packages.len() && !f.finished(g as int) implies rank(
        f.packages[g as int].name,
    ) > rank(o.packages[h as int].name) by {
        assert(mid.order.contains(g));
        assert(g != h);
        assert(f.packages[g as int] == mid.packages[g as int]);
        assert(mid.packages[h as int].name == o.packages[h as int].name);
    }
}

/// What an orderly visit knows of its pool.
pub proof fn lemma_orderly_facts(
    rank: spec_fn(Seq<char>) -> nat,
    within: Set<Seq<char>>,
    cur: PoolView,
    h: PackageRef,
)
    requires
        orderly(rank, within, cur, h),
    ensures
        tidy(cur),
        !cur.cyclic,
{
    reveal(orderly);
}

/// Whether the package behind `h` is resolved without a cycle being met:
/// the packages lie in layers, the pool is tidy, its unfinished packages rank
/// above the package, and the package itself belongs to the layers.
pub open spec fn calm(
    rank: spec_fn(Seq<char>) -> nat,
    within: Set<Seq<char>>,
    ms: Seq<MirrorView>,
    db: DatabaseView,
    pool: PoolView,
    h: PackageRef,
) -> bool {
    &&& layered(rank, within, ms, db)
    &&& tidy(pool)
    &&& above(rank, pool, rank(pool.packages[h as int].name))
    &&& ranked(rank, within, pool.packages[h as int])
}

/// What the layers ask of the package behind `h` before it is resolved:
/// the packages that resolving comes to lie in layers, no cycle was met,
/// every unfinished package of the plan ranks above it, its name is one of
/// `within`, and, unless an installed package takes its place, it depends
/// only on names of `within` of a lower rank than its own.
pub open spec fn settled(
    rank: spec_fn(Seq<char>) -> nat,
    within: Set<Seq<char>>,
    ms: Seq<MirrorView>,
    db: DatabaseView,
    pool: PoolView,
    h: PackageRef,
) -> bool {
    &&& layered(rank, within, ms, db)
    &&& tidy(pool)
    &&& above(rank, pool, rank(pool.packages[h as int].name))
    &&& within.contains(pool.packages[h as int].name)
    &&& enters_itself(db, pool.packages[h as int]) ==> ranked(rank, within, pool.packages[h as int])
}

/// The package that stands for an installed package is resolved as calmly
/// as the package whose place it takes.
pub proof fn lemma_calm_added(
    rank: spec_fn(Seq<char>) -> nat,
    within: Set<Seq<char>>,
    ms: Seq<MirrorView>,
    db: DatabaseView,
    o: PoolView,
    added: PoolView,
    h: PackageRef,
    s: PackageRef,
    i: int,
)
    requires
        settled(rank, within, ms, db, o, h),
        ranked(rank, within, added.packages[s as int]),
        o.handles_valid(),
        h < o.packages.len(),
        s == o.packages.len(),
        0 <= i < db.packages.len(),
        added.order == o.order,
        added.cyclic == o.cyclic,
        added.packages.len() == o.packages.len() + 1,
        added.packages.take(o.packages.len() as int) == o.packages,
        added.packages[o.packages.len() as int].name == db.packages[i].name,
        added.packages[o.packages.len() as int].hash == db.packages[i].hash,
        added.packages[o.packages.len() as int].dependencies == DependenciesView::Unresolved(
            db.dependency_names(db.packages[i].hash),
        ),
        db.packages[i].name == o.packages[h as int].name,
    ensures
        calm(rank, within, ms, db, added, s),
{
    assert forall|g: int| 0 <= g < o.packages.len() implies #[trigger] added.packages[g]
        == o.packages[g] by {
        assert(added.packages.take(o.packages.len() as int)[g] == o.packages[g]);
    }
    assert forall|g: PackageRef| #[trigger] added.order.contains(g) implies g < o.packages.len()
        && o.order.contains(g) by {
        let a = choose|a: int| 0 <= a < o.order.len() && o.order[a] == g;
        assert(o.order[a] < o.packages.len());
    }
    assert(tidy(added));
    assert(rank(added.packages[s as int].name) == rank(o.packages[h as int].name));
    assert(above(rank, added, rank(added.packages[s as int].name)));
}

/// While a package is visited, it stands in the plan.
pub proof fn lemma_visiting_order(o: PoolView, cur: PoolView, h: PackageRef, hs: Seq<PackageRef>)
    requires
        visiting(o, cur, h, hs),
    ensures
        cur.order.contains(h),
        cur.handles_valid(),
{
    reveal(visiting);
    assert(cur.order[o.order.len() as int] == h);
}

/// The classes of the errors that resolving can end with.
pub open spec fn resolve_failure(class: LErrorClass) -> bool {
    class == LErrorClass::PackageNotFound || class == LErrorClass::MirrorNotLoaded || class
        == LErrorClass::UnexpectedPackageVariant
}

/// Whether every package that entered the plan since `old` is finished.
pub open spec fn added_finished(old: PoolView, new: PoolView) -> bool {
    forall|i: int|
        old.order.len() <= i < new.order.len() ==> new.finished(#[trigger] new.order[i] as int)
}

/// The package that stands for the installed package of row `i`: an
/// installed package with the fields of the row and no files, whose
/// dependencies are the names that the index records for its hash.
pub open spec fn stub_view(db: DatabaseView, i: int) -> PackageView {
    PackageView {
        name: db.packages[i].name,
        version: db.packages[i].version,
        real_version: db.packages[i].real_version,
        description: db.packages[i].description,
        hash: db.packages[i].hash,
        dependencies: DependenciesView::Unresolved(db.dependency_names(db.packages[i].hash)),
        extra: PackageExtra::Installed { files: Seq::empty() },
    }
}

/// Whether `q` is the package that resolving takes for its name: the
/// installed package of that name where the index has one, else the first
/// package of that name in the first mirror that has one.
pub open spec fn sourced(ms: Seq<MirrorView>, db: DatabaseView, q: PackageView) -> bool {
    if db.has_name(q.name) {
        q == stub_view(db, db.position(q.name))
    } else {
        match lookup(ms, q.name) {
            Lookup::Found(k, i) => q == ms[k].packages->Some_0[i],
            _ => false,
        }
    }
}

/// The names of the packages behind the handles `hs`, in order.
pub open spec fn names_behind(packages: Seq<PackageView>, hs: Seq<PackageRef>) -> Seq<Seq<char>> {
    Seq::new(hs.len(), |j: int| packages[hs[j] as int].name)
}

/// The package behind `g` as it was before its dependencies were resolved:
/// a package with resolved dependencies had the names of the packages that
/// its handles refer to, in the same order; an unresolved one is as it was.
pub open spec fn before(pool: PoolView, g: int) -> PackageView {
    if pool.finished(g) {
        PackageView {
            dependencies: DependenciesView::Unresolved(names_behind(pool.packages, pool.deps(g))),
            ..pool.packages[g]
        }
    } else {
        pool.packages[g]
    }
}

/// Whether the handles that the package behind `g` depends on have packages.
pub open spec fn deps_valid(pool: PoolView, g: int) -> bool {
    forall|j: int| 0 <= j < pool.deps(g).len() ==> #[trigger] pool.deps(g)[j] < pool.packages.len()
}

/// Whether the pool `new` came from `old` by resolving the package behind
/// `h` faithfully: no other package that had a handle was changed; the
/// package itself, where it entered the plan, is what it was but for its
/// dependencies, which became handles to packages of its dependency names,
/// in order; and every other package that entered the plan has a handle of
/// its own and is the package that resolving takes for its name, with its
/// dependencies resolved in the same way.
pub open spec fn faithful(
    ms: Seq<MirrorView>,
    db: DatabaseView,
    old: PoolView,
    new: PoolView,
    h: PackageRef,
) -> bool {
    &&& forall|g: int|
        0 <= g < old.packages.len() && g != h ==> #[trigger] new.packages[g] == old.packages[g]
    &&& forall|i: int|
        old.order.len() <= i < new.order.len() ==> entered_well(ms, db, old, new, h, #[trigger] new.order[i])
}

/// Whether the package behind `g`, which entered the plan, is what resolving
/// the package behind `h` faithfully makes of it.
pub open spec fn entered_well(
    ms: Seq<MirrorView>,
    db: DatabaseView,
    old: PoolView,
    new: PoolView,
    h: PackageRef,
    g: PackageRef,
) -> bool {
    &&& g < new.packages.len()
    &&& deps_valid(new, g as int)
    &&& if g == h {
        h < old.packages.len() && before(new, g as int) == old.packages[g as int]
    } else {
        g >= old.packages.len() && sourced(ms, db, before(new, g as int))
    }
}

/// Whether no package named `name` can be found at all: no mirror has one
/// and none is installed.
pub open spec fn unfound(ms: Seq<MirrorView>, db: DatabaseView, name: Seq<char>) -> bool {
    lookup(ms, name) is Missing && !db.has_name(name)
}

/// Whether `e` is the error for the name `n` that the package behind `g`
/// depends on and that cannot be found.
pub open spec fn lacks(
    ms: Seq<MirrorView>,
    db: DatabaseView,
    pool: PoolView,
    g: PackageRef,
    n: Seq<char>,
    e: LErrorView,
) -> bool {
    &&& pool.order.contains(g)
    &&& g < pool.packages.len()
    &&& pool.packages[g as int].dependencies matches DependenciesView::Unresolved(names)
        && names.contains(n)
    &&& unfound(ms, db, n)
    &&& e == not_found_error(n)
}

/// Whether a mirror offers a package whose dependencies are resolved
/// already, which cannot be resolved again.
pub open spec fn spoiled(ms: Seq<MirrorView>) -> bool {
    exists|k: int, i: int|
        0 <= k < ms.len() && ms[k].packages is Some && 0 <= i < ms[k].packages->Some_0.len() && (
        #[trigger] ms[k].packages->Some_0[i]).dependencies is Resolved
}

/// The errors that resolving the package `p` can end with: the error for
/// dependencies that were resolved before, where `p` or a package of a
/// mirror has such; the error of a mirror that is not loaded; the error that
/// names a dependency of a package of the plan that cannot be found.
pub open spec fn resolve_error(
    ms: Seq<MirrorView>,
    db: DatabaseView,
    pool: PoolView,
    p: PackageView,
    e: LErrorView,
) -> bool {
    ||| e == dependencies_error(false) && (p.dependencies is Resolved || spoiled(ms))
    ||| exists|m: int| 0 <= m < ms.len() && ms[m].packages is None && e == not_loaded_error(#[trigger] ms[m])
    ||| exists|g: PackageRef, n: Seq<char>| #[trigger] lacks(ms, db, pool, g, n, e)
}

/// An error of resolving a package that resolving takes for its name is an
/// error of resolving the package that depends on it.
pub proof fn lemma_resolve_error_up(
    ms: Seq<MirrorView>,
    db: DatabaseView,
    pool: PoolView,
    q: PackageView,
    p: PackageView,
    e: LErrorView,
)
    requires
        resolve_error(ms, db, pool, q, e),
        sourced(ms, db, q),
    ensures
        resolve_error(ms, db, pool, p, e),
{
    if e == dependencies_error(false) && q.dependencies is Resolved {
        crate::mirror::lemma_lookup_found(ms, q.name);
        let k = lookup(ms, q.name)->Found_0;
        let i = lookup(ms, q.name)->Found_1;
        assert(ms[k].packages->Some_0[i].dependencies is Resolved);
    }
}

/// What the search for one name ends with where it fails.
pub open spec fn source_error(ms: Seq<MirrorView>, db: DatabaseView, name: Seq<char>, e: LErrorView) -> bool {
    ||| unfound(ms, db, name) && e == not_found_error(name)
    ||| exists|m: int| 0 <= m < ms.len() && ms[m].packages is None && e == not_loaded_error(#[trigger] ms[m])
}

/// What holds of the packages while the package behind `h` is visited: `hs`
/// are handles to packages of the first dependency names of the package, the
/// package itself is as it was, and all that entered the plan behind it
/// entered it well.
#[verifier::opaque]
pub open spec fn tracking(
    ms: Seq<MirrorView>,
    db: DatabaseView,
    o: PoolView,
    cur: PoolView,
    h: PackageRef,
    hs: Seq<PackageRef>,
    names: Seq<Seq<char>>,
) -> bool {
    &&& h < o.packages.len()
    &&& o.packages.len() <= cur.packages.len()
    &&& forall|g: int| 0 <= g < o.packages.len() ==> #[trigger] cur.packages[g] == o.packages[g]
    &&& forall|i: int|
        o.order.len() < i < cur.order.len() ==> entered_well(ms, db, o, cur, h, #[trigger] cur.order[i])
            && cur.order[i] != h
    &&& hs.len() <= names.len()
    &&& forall|j: int|
        0 <= j < hs.len() ==> #[trigger] hs[j] < cur.packages.len() && cur.packages[hs[j] as int].name
            == names[j]
}

/// Tracking begins when the package enters the plan.
pub proof fn lemma_tracking_start(
    ms: Seq<MirrorView>,
    db: DatabaseView,
    o: PoolView,
    h: PackageRef,
    names: Seq<Seq<char>>,
)
    requires
        h < o.packages.len(),
    ensures
        tracking(ms, db, o, entered(o, h), h, Seq::empty(), names),
{
    reveal(tracking);
}

/// Tracking goes on with one more handle to a package of the next name.
pub proof fn lemma_tracking_push(
    ms: Seq<MirrorView>,
    db: DatabaseView,
    o: PoolView,
    cur: PoolView,
    next: PoolView,
    h: PackageRef,
    hs: Seq<PackageRef>,
    names: Seq<Seq<char>>,
    y: PackageRef,
)
    requires
        tracking(ms, db, o, cur, h, hs, names),
        hs.len() < names.len(),
        y < cur.packages.len(),
        cur.packages[y as int].name == names[hs.len() as int],
        next.packages == cur.packages,
        next.order == cur.order,
    ensures
        tracking(ms, db, o, next, h, hs.push(y), names),
{
    reveal(tracking);
    assert forall|i: int| o.order.len() < i < next.order.len() implies entered_well(
        ms,
        db,
        o,
        next,
        h,
        #[trigger] next.order[i],
    ) && next.order[i] != h by {
        let g = cur.order[i];
        assert(entered_well(ms, db, o, cur, h, g));
        assert(next.deps(g as int) == cur.deps(g as int));
        assert(before(next, g as int) == before(cur, g as int));
    }
    assert forall|j: int| 0 <= j < hs.push(y).len() implies #[trigger] hs.push(y)[j]
        < next.packages.len() && next.packages[hs.push(y)[j] as int].name == names[j] by {
        if j < hs.len() {
            assert(hs.push(y)[j] == hs[j]);
        }
    }
}

/// A package that entered the plan well stays so while the pool is extended.
pub proof fn lemma_entered_kept(
    ms: Seq<MirrorView>,
    db: DatabaseView,
    o: PoolView,
    a: PoolView,
    b: PoolView,
    h: PackageRef,
    g: PackageRef,
)
    requires
        entered_well(ms, db, o, a, h, g),
        g != h,
        a.packages.len() <= b.packages.len(),
        b.packages[g as int] == a.packages[g as int],
        forall|x: int| 0 <= x < a.packages.len() ==> (#[trigger] b.packages[x]).name == a.packages[x].name,
    ensures
        entered_well(ms, db, o, b, h, g),
        before(b, g as int) == before(a, g as int),
{
    assert(b.deps(g as int) == a.deps(g as int));
    assert(names_behind(b.packages, b.deps(g as int)) =~= names_behind(a.packages, a.deps(g as int))) by {
        assert forall|j: int| 0 <= j < a.deps(g as int).len() implies b.packages[a.deps(
            g as int,
        )[j] as int].name == a.packages[a.deps(g as int)[j] as int].name by {
            assert(a.deps(g as int)[j] < a.packages.len());
        }
    }
}

/// Tracking goes on when a package gets a handle without entering the plan.
pub proof fn lemma_tracking_located(
    ms: Seq<MirrorView>,
    db: DatabaseView,
    o: PoolView,
    cur: PoolView,
    located: PoolView,
    h: PackageRef,
    hs: Seq<PackageRef>,
    names: Seq<Seq<char>>,
)
    requires
        tracking(ms, db, o, cur, h, hs, names),
        located.order == cur.order,
        located.packages.len() >= cur.packages.len(),
        located.packages.take(cur.packages.len() as int) == cur.packages,
    ensures
        tracking(ms, db, o, located, h, hs, names),
{
    reveal(tracking);
    assert forall|x: int| 0 <= x < cur.packages.len() implies #[trigger] located.packages[x]
        == cur.packages[x] by {
        assert(located.packages.take(cur.packages.len() as int)[x] == cur.packages[x]);
    }
    assert forall|i: int| o.order.len() < i < located.order.len() implies entered_well(
        ms,
        db,
        o,
        located,
        h,
        #[trigger] located.order[i],
    ) && located.order[i] != h by {
        let g = cur.order[i];
        assert(entered_well(ms, db, o, cur, h, g));
        lemma_entered_kept(ms, db, o, cur, located, h, g);
    }
}

/// Tracking goes on when a dependency was visited in turn, whether the visit
/// came to its end or not.
pub proof fn lemma_tracking_visited(
    ms: Seq<MirrorView>,
    db: DatabaseView,
    o: PoolView,
    located: PoolView,
    after: PoolView,
    h: PackageRef,
    h2: PackageRef,
    hs: Seq<PackageRef>,
    names: Seq<Seq<char>>,
)
    requires
        tracking(ms, db, o, located, h, hs, names),
        visiting(o, located, h, hs),
        extends(located, after),
        faithful(ms, db, located, after, h2),
        o.packages.len() <= h2 < located.packages.len(),
        sourced(ms, db, located.packages[h2 as int]),
        !located.order.contains(h2),
    ensures
        tracking(ms, db, o, after, h, hs, names),
{
    reveal(tracking);
    reveal(visiting);
    assert forall|i: int| o.order.len() < i < after.order.len() implies entered_well(
        ms,
        db,
        o,
        after,
        h,
        #[trigger] after.order[i],
    ) && after.order[i] != h by {
        let g = after.order[i];
        if i < located.order.len() {
            assert(after.order.take(located.order.len() as int)[i] == located.order[i]);
            assert(located.order.contains(g));
            assert(located.order[i] < located.packages.len());
            assert(entered_well(ms, db, o, located, h, g));
            assert(g != h2);
            lemma_entered_kept(ms, db, o, located, after, h, g);
        } else {
            assert(entered_well(ms, db, located, after, h2, g));
        }
    }
}

/// Where a visit ends early, the pool is still faithful to its sources: the visited package
/// stands in the plan as it was.
pub proof fn lemma_tracking_stopped(
    ms: Seq<MirrorView>,
    db: DatabaseView,
    o: PoolView,
    cur: PoolView,
    h: PackageRef,
    hs: Seq<PackageRef>,
    names: Seq<Seq<char>>,
)
    requires
        tracking(ms, db, o, cur, h, hs, names),
        o.order.len() < cur.order.len(),
        cur.order[o.order.len() as int] == h,
        !o.finished(h as int),
    ensures
        faithful(ms, db, o, cur, h),
        cur.order.contains(h),
        cur.packages[h as int] == o.packages[h as int],
{
    reveal(tracking);
    assert(cur.order[o.order.len() as int] == h);
    assert(cur.deps(h as int) =~= Seq::<PackageRef>::empty());
    assert forall|i: int| o.order.len() <= i < cur.order.len() implies entered_well(
        ms,
        db,
        o,
        cur,
        h,
        #[trigger] cur.order[i],
    ) by {}
}

/// Where a visit comes to its end, the pool is faithful to its sources: the visited package
/// has handles to packages of its dependency names, in order.
pub proof fn lemma_tracking_finish(
    ms: Seq<MirrorView>,
    db: DatabaseView,
    o: PoolView,
    mid: PoolView,
    h: PackageRef,
    hs: Seq<PackageRef>,
    names: Seq<Seq<char>>,
)
    requires
        tracking(ms, db, o, mid, h, hs, names),
        visiting(o, mid, h, hs),
        hs.len() == names.len(),
        o.packages[h as int].dependencies == DependenciesView::Unresolved(names),
    ensures
        faithful(ms, db, o, finish(mid, o.order.len() as int, hs), h),
{
    reveal(tracking);
    reveal(visiting);
    let entry = o.order.len() as int;
    let f = finish(mid, entry, hs);
    assert(mid.order[entry] == h);
    assert(f.deps(h as int) == hs);
    assert(names_behind(f.packages, hs) =~= names) by {
        assert forall|j: int| 0 <= j < hs.len() implies f.packages[hs[j] as int].name == names[j] by {
            assert(mid.packages[hs[j] as int].name == names[j]);
        }
    }
    assert(before(f, h as int) == o.packages[h as int]);
    assert forall|i: int| o.order.len() <= i < f.order.len() implies entered_well(
        ms,
        db,
        o,
        f,
        h,
        #[trigger] f.order[i],
    ) by {
        let g = f.order[i];
        if i < f.order.len() - 1 {
            assert(g == mid.order[i + 1]);
            assert(entered_well(ms, db, o, mid, h, g));
            assert(f.packages[g as int] == mid.packages[g as int]);
            assert forall|x: int| 0 <= x < mid.packages.len() implies (#[trigger] f.packages[x]).name
                == mid.packages[x].name by {}
            lemma_entered_kept(ms, db, o, mid, f, h, g);
        } else {
            assert(g == h);
            assert forall|j: int| 0 <= j < hs.len() implies #[trigger] hs[j] < f.packages.len() by {}
        }
    }
}

/// What the package of a row stands for: it is the package that resolving
/// takes for its name, its name can be found, and it fits the layers.
pub proof fn lemma_stub_facts(
    ms: Seq<MirrorView>,
    db: DatabaseView,
    i: int,
    rank: spec_fn(Seq<char>) -> nat,
    within: Set<Seq<char>>,
    reach: Set<Seq<char>>,
)
    requires
        0 <= i < db.packages.len(),
        i == db.position(db.packages[i].name),
    ensures
        sourced(ms, db, stub_view(db, i)),
        source_names(ms, db).contains(db.packages[i].name),
        sources_ok(ms, db, reach) && reach.contains(db.packages[i].name) ==> resolvable(
            ms,
            db,
            reach,
            stub_view(db, i),
        ),
        layered(rank, within, ms, db) && within.contains(db.packages[i].name) ==> ranked(
            rank,
            within,
            stub_view(db, i),
        ),
{
    assert(db.names()[i] == db.packages[i].name);
    assert(source_names(ms, db)[i] == db.packages[i].name);
    assert(sourced(ms, db, stub_view(db, i)));
}

/// Makes a handle for the package that stands for the installed package of
/// row `i`.
fn add_stub(db: &Database, i: usize, pool: &mut PackagePool) -> (h: PackageRef)
    requires
        i < db@.packages.len(),
    ensures
        h == old(pool)@.packages.len(),
        final(pool)@.packages == old(pool)@.packages.push(stub_view(db@, i as int)),
        final(pool)@.order == old(pool)@.order,
        final(pool)@.cyclic == old(pool)@.cyclic,
{
    let row = &db.packages[i];
    let names = db.get_package_dependencies(row.hash.as_str());
    let stub = InstalledPackage {
        name: row.name.clone(),
        version: row.version.clone(),
        real_version: row.real_version,
        description: row.description.clone(),
        dependencies: Dependencies::Unresolved(names),
        hash: row.hash.clone(),
        files: Vec::new(),
    };
    assert(crate::util::fs::forest_view(stub.files@) =~= Seq::empty());
    assert(stub@ == stub_view(db@, i as int));
    pool.add(PackageVariant::Installed(stub))
}

/// Makes a handle for the package that resolving takes for `name`: the
/// installed package of that name where the index has one, else the first
/// package of that name in the mirrors. The dependencies of an installed
/// package are asked for in the index first, so that they need no mirror;
/// all others are searched in the mirrors first, in the order of the mirrors,
/// and a mirror that is not loaded ends the search.
fn source(
    name: &str,
    index_first: bool,
    pool: &mut PackagePool,
    mirrors: &Vec<Mirror>,
    db: &Database,
    Ghost(rank): Ghost<spec_fn(Seq<char>) -> nat>,
    Ghost(within): Ghost<Set<Seq<char>>>,
    Ghost(reach): Ghost<Set<Seq<char>>>,
) -> (r: Result<PackageRef, LError>)
    ensures
        final(pool)@.order == old(pool)@.order,
        final(pool)@.cyclic == old(pool)@.cyclic,
        final(pool)@.packages.len() >= old(pool)@.packages.len(),
        final(pool)@.packages.take(old(pool)@.packages.len() as int) == old(pool)@.packages,
        r is Err ==> final(pool)@ == old(pool)@ && resolve_failure(r->Err_0@.class) && source_error(
            mirrors_view(mirrors@),
            db@,
            name@,
            r->Err_0@,
        ),
        r is Ok ==> r->Ok_0 == old(pool)@.packages.len() && final(pool)@.packages.len() == old(pool)@.packages.len() + 1 && final(pool)@.packages[r->Ok_0 as int].name == name@
            && source_names(mirrors_view(mirrors@), db@).contains(name@) && sourced(
            mirrors_view(mirrors@),
            db@,
            final(pool)@.packages[r->Ok_0 as int],
        ),
        findable(mirrors_view(mirrors@), db@, name@) ==> r is Ok,
        index_first && db@.has_name(name@) ==> r is Ok,
        r is Ok && sources_ok(mirrors_view(mirrors@), db@, reach) && reach.contains(name@) ==> resolvable(
            mirrors_view(mirrors@),
            db@,
            reach,
            final(pool)@.packages[r->Ok_0 as int],
        ),
        r is Ok && layered(rank, within, mirrors_view(mirrors@), db@) && within.contains(name@) ==> ranked(
            rank,
            within,
            final(pool)@.packages[r->Ok_0 as int],
        ),
{
    let ghost ms = mirrors_view(mirrors@);
    let ghost o = pool@;
    let installed = db.find_package(name);
    proof {
        lemma_first_index(db@.names(), name@);
        lemma_first_index(crate::mirror::answers(ms, name@), true);
        match installed {
            Some(i) => {
                assert(db@.names()[i as int] == name@);
                lemma_stub_facts(ms, db@, i as int, rank, within, reach);
            },
            None => {},
        }
    }
    if index_first {
        match installed {
            Some(i) => {
                let h = add_stub(db, i, pool);
                assert(pool@.packages.take(o.packages.len() as int) =~= o.packages);
                return Ok(h);
            },
            None => {},
        }
    }
    match find_first(name, mirrors) {
        Ok(found) => {
            let h = match installed {
                Some(i) => add_stub(db, i, pool),
                None => pool.add(PackageVariant::Remote(found.duplicate())),
            };
            proof {
                assert(pool@.packages.take(o.packages.len() as int) =~= o.packages);
                match lookup(ms, name@) {
                    Lookup::Found(k, i) => {
                        assert(ms[k] == mirrors@[k]@);
                        lemma_catalog_names(ms, k, i);
                        let c = catalog_names(ms);
                        let j = choose|j: int| 0 <= j < c.len() && c[j] == name@;
                        assert(source_names(ms, db@)[db@.names().len() + j] == name@);
                        if installed is None {
                            assert(pool@.packages[h as int] == ms[k].packages->Some_0[i]);
                        }
                    },
                    _ => {},
                }
                assert(sourced(ms, db@, pool@.packages[h as int]));
            }
            Ok(h)
        },
        Err(e) => {
            proof {
                assert(pool@.packages.take(o.packages.len() as int) =~= o.packages);
                match lookup(ms, name@) {
                    Lookup::NotLoaded(k) => {
                        assert(ms[k] == mirrors@[k]@);
                    },
                    _ => {},
                }
            }
            match e.class {
                LErrorClass::PackageNotFound => {},
                _ => {
                    return Err(e);
                },
            }
            match installed {
                Some(i) => {
                    let h = add_stub(db, i, pool);
                    assert(pool@.packages.take(o.packages.len() as int) =~= o.packages);
                    Ok(h)
                },
                None => Err(e),
            }
        },
    }
}

/// What holds while the package behind `h` is being visited: `cur` is the
/// pool now, `o` the pool when the visit began, and `hs` the dependencies that
/// have been resolved so far.
#[verifier::opaque]
pub open spec fn visiting(o: PoolView, cur: PoolView, h: PackageRef, hs: Seq<PackageRef>) -> bool {
    &&& o.wf()
    &&& cur.wf()
    &&& extends(o, cur)
    &&& h < o.packages.len()
    &&& !o.names().contains(o.packages[h as int].name)
    &&& o.order.len() < cur.order.len()
    &&& cur.order[o.order.len() as int] == h
    &&& !cur.finished(h as int)
    &&& forall|i: int|
        o.order.len() < i < cur.order.len() ==> cur.finished(#[trigger] cur.order[i] as int)
    &&& forall|j: int| 0 <= j < hs.len() ==> cur.order.contains(#[trigger] hs[j])
    &&& !cur.cyclic ==> forall|j: int| 0 <= j < hs.len() ==> cur.finished(#[trigger] hs[j] as int)
    &&& forall|x: Seq<char>|
        o.names().push(o.packages[h as int].name).contains(x) ==> cur.names().contains(x)
}

/// The pool `o` with the handle `h` at the end of its plan.
pub open spec fn entered(o: PoolView, h: PackageRef) -> PoolView {
    PoolView { order: o.order.push(h), ..o }
}

/// A visit begins when the unfinished package enters the plan.
pub proof fn lemma_visiting_start(o: PoolView, h: PackageRef)
    requires
        o.wf(),
        h < o.packages.len(),
        !o.finished(h as int),
        !o.names().contains(o.packages[h as int].name),
    ensures
        visiting(o, entered(o, h), h, Seq::empty()),
{
    reveal(visiting);
    let m = entered(o, h);
    let name_h = o.packages[h as int].name;
    assert(m.names() =~= o.names().push(name_h));
    assert(m.order.take(o.order.len() as int) =~= o.order);
    assert(m.names_unique()) by {
        assert forall|i: int, j: int| 0 <= i < j < m.names().len() implies m.names()[i]
            != m.names()[j] by {
            if j < o.names().len() {
                assert(o.names()[i] != o.names()[j]);
            } else {
                assert(o.names().contains(o.names()[i]));
            }
        }
    }
    assert(m.deps(h as int) =~= Seq::<PackageRef>::empty());
    assert forall|i: int| 0 <= i < o.order.len() implies m.deps(#[trigger] m.order[i] as int)
        == o.deps(o.order[i] as int) by {}
    assert(m.closed()) by {
        assert forall|i: int, k: int|
            0 <= i < m.order.len() && 0 <= k < m.deps(m.order[i] as int).len() implies m.order.contains(
            #[trigger] m.deps(m.order[i] as int)[k],
        ) by {
            let y = o.deps(o.order[i] as int)[k];
            assert(o.order.contains(y));
            let j = choose|j: int| 0 <= j < o.order.len() && o.order[j] == y;
            assert(m.order[j] == y);
        }
    }
    if !m.cyclic {
        assert forall|i: int, k: int|
            0 <= i < m.order.len() && 0 <= k < m.deps(m.order[i] as int).len() implies first_index(
            m.order,
            #[trigger] m.deps(m.order[i] as int)[k],
        ) < i && m.finished(m.deps(m.order[i] as int)[k] as int) by {
            let y = o.deps(o.order[i] as int)[k];
            let q = first_index(o.order, y);
            assert(q < i);
            lemma_first_index(o.order, y);
            assert(m.order[q] == y);
            assert(forall|j: int| 0 <= j < q ==> m.order[j] == o.order[j]);
            lemma_first_index_is(m.order, y, q);
            assert(o.finished(y as int));
        }
    }
}

/// A visit goes on when a package gets a handle without entering the plan.
pub proof fn lemma_visiting_located(
    o: PoolView,
    before: PoolView,
    located: PoolView,
    h: PackageRef,
    hs: Seq<PackageRef>,
)
    requires
        visiting(o, before, h, hs),
        located.order == before.order,
        located.cyclic == before.cyclic,
        located.packages.len() >= before.packages.len(),
        located.packages.take(before.packages.len() as int) == before.packages,
    ensures
        visiting(o, located, h, hs),
        located.names() == before.names(),
{
    reveal(visiting);
    lemma_add_keeps(before, located);
    lemma_extends_trans(o, before, located);
    assert forall|g: int| 0 <= g < before.packages.len() implies #[trigger] located.packages[g]
        == before.packages[g] by {
        assert(located.packages.take(before.packages.len() as int)[g] == before.packages[g]);
    }
    assert forall|j: int| 0 <= j < hs.len() implies #[trigger] hs[j] < before.packages.len() by {
        let i = choose|i: int| 0 <= i < before.order.len() && before.order[i] == hs[j];
        assert(before.order[i] < before.packages.len());
    }
}

/// A visit goes on when more packages were resolved into the pool.
pub proof fn lemma_visiting_resolved(
    o: PoolView,
    located: PoolView,
    after: PoolView,
    h: PackageRef,
    hs: Seq<PackageRef>,
)
    requires
        visiting(o, located, h, hs),
        after.wf(),
        extends(located, after),
        added_finished(located, after),
    ensures
        visiting(o, after, h, hs),
{
    reveal(visiting);
    let entry = o.order.len() as int;
    lemma_extends_trans(o, located, after);
    lemma_extends_names(located, after);
    assert(after.order.take(located.order.len() as int)[entry] == located.order[entry]);
    assert(located.order.contains(h));
    assert forall|i: int| entry < i < after.order.len() implies after.finished(
        #[trigger] after.order[i] as int,
    ) by {
        if i < located.order.len() {
            assert(after.order.take(located.order.len() as int)[i] == located.order[i]);
            assert(located.order.contains(located.order[i]));
        }
    }
    assert forall|j: int| 0 <= j < hs.len() implies after.order.contains(#[trigger] hs[j]) && (
    !after.cyclic ==> after.finished(hs[j] as int)) by {
        let g = hs[j];
        let i = choose|i: int| 0 <= i < located.order.len() && located.order[i] == g;
        assert(after.order.take(located.order.len() as int)[i] == located.order[i]);
    }
}

/// A visit goes on when the next dependency is noted, after the pool was
/// marked as cyclic where that dependency is unfinished.
pub proof fn lemma_visiting_noted(
    o: PoolView,
    cur: PoolView,
    next: PoolView,
    h: PackageRef,
    hs: Seq<PackageRef>,
    y: PackageRef,
)
    requires
        visiting(o, cur, h, hs),
        cur.order.contains(y),
        next.packages == cur.packages,
        next.order == cur.order,
        next.cyclic == (cur.cyclic || !cur.finished(y as int)),
    ensures
        visiting(o, next, h, hs.push(y)),
{
    reveal(visiting);
    assert(next.names() =~= cur.names());
    assert forall|i: int| 0 <= i < next.order.len() implies next.deps(#[trigger] next.order[i] as int)
        == cur.deps(cur.order[i] as int) by {}
    assert(next.closed()) by {
        assert forall|i: int, k: int|
            0 <= i < next.order.len() && 0 <= k < next.deps(next.order[i] as int).len() implies next.order.contains(
            #[trigger] next.deps(next.order[i] as int)[k],
        ) by {
            assert(cur.order.contains(cur.deps(cur.order[i] as int)[k]));
        }
    }
    if !next.cyclic {
        assert forall|i: int, k: int|
            0 <= i < next.order.len() && 0 <= k < next.deps(next.order[i] as int).len() implies first_index(
            next.order,
            #[trigger] next.deps(next.order[i] as int)[k],
        ) < i && next.finished(next.deps(next.order[i] as int)[k] as int) by {
            let d = cur.deps(cur.order[i] as int)[k];
            assert(first_index(cur.order, d) < i);
            assert(cur.finished(d as int));
        }
    }
    assert(next.order.take(cur.order.len() as int) =~= cur.order);
    assert(extends(cur, next));
    lemma_extends_trans(o, cur, next);
    assert forall|j: int| 0 <= j < hs.push(y).len() implies next.order.contains(
        #[trigger] hs.push(y)[j],
    ) && (!next.cyclic ==> next.finished(hs.push(y)[j] as int)) by {
        if j < hs.len() {
            assert(hs.push(y)[j] == hs[j]);
        }
    }
}

/// While a package is visited, a findable name outside the plan leaves fewer
/// names to go than the visit began with.
pub proof fn lemma_visiting_measure(
    o: PoolView,
    cur: PoolView,
    h: PackageRef,
    hs: Seq<PackageRef>,
    d: Seq<char>,
    src: Seq<Seq<char>>,
)
    requires
        visiting(o, cur, h, hs),
        !cur.names().contains(d),
        src.contains(d),
    ensures
        absent(src, cur.names().push(d)) < absent(src, o.names().push(o.packages[h as int].name)),
{
    reveal(visiting);
    let p = o.names().push(o.packages[h as int].name);
    let q = cur.names().push(d);
    assert forall|x: Seq<char>| p.contains(x) implies q.contains(x) by {
        assert(cur.names().contains(x));
        let j = choose|j: int| 0 <= j < cur.names().len() && cur.names()[j] == x;
        assert(q[j] == x);
    }
    assert(q[cur.names().len() as int] == d);
    lemma_absent_strict(src, p, q, d);
}

/// A visit ends when the package gets its dependencies and moves to the end
/// of the plan.
pub proof fn lemma_visiting_finish(o: PoolView, mid: PoolView, h: PackageRef, hs: Seq<PackageRef>)
    requires
        visiting(o, mid, h, hs),
    ensures
        finish(mid, o.order.len() as int, hs).wf(),
        extends(o, finish(mid, o.order.len() as int, hs)),
        added_finished(o, finish(mid, o.order.len() as int, hs)),
        finish(mid, o.order.len() as int, hs).order.len() > o.order.len(),
        finish(mid, o.order.len() as int, hs).order.last() == h,
        h < mid.packages.len(),
        o.order.len() < mid.order.len(),
        mid.order[o.order.len() as int] == h,
{
    reveal(visiting);
    let entry = o.order.len() as int;
    let f = finish(mid, entry, hs);
    let name_h = o.packages[h as int].name;
    lemma_finish(mid, entry, hs);
    assert(extends(o, f)) by {
        assert forall|i: int| 0 <= i < o.order.len() implies f.order[i] == o.order[i] by {
            assert(mid.order.take(o.order.len() as int)[i] == o.order[i]);
        }
        assert(f.order.take(o.order.len() as int) =~= o.order);
        assert(!o.order.contains(h)) by {
            if o.order.contains(h) {
                let i = choose|i: int| 0 <= i < o.order.len() && o.order[i] == h;
                assert(o.names()[i] == name_h);
            }
        }
    }
    assert(added_finished(o, f)) by {
        assert forall|i: int| o.order.len() <= i < f.order.len() implies f.finished(
            #[trigger] f.order[i] as int,
        ) by {
            if i < f.order.len() - 1 {
                assert(f.order[i] == mid.order[i + 1]);
                assert(mid.finished(mid.order[i + 1] as int));
            }
        }
    }
}

/// What a visit knows of its pool at every step.
pub proof fn lemma_visiting_facts(o: PoolView, cur: PoolView, h: PackageRef, hs: Seq<PackageRef>)
    requires
        visiting(o, cur, h, hs),
    ensures
        cur.wf(),
        extends(o, cur),
{
    reveal(visiting);
}

/// Whether a package of the plan at place `from` or behind it depends on
/// the package behind `g`.
pub open spec fn relied(from: int, pool: PoolView, g: PackageRef) -> bool {
    exists|i: int|
        from <= i < pool.order.len() && 0 <= i && pool.deps(#[trigger] pool.order[i] as int).contains(g)
}

/// Whether nothing entered the plan at place `from` or behind it without
/// being called for: the last package of the plan is the one that was
/// resolved, and a package of the plan at or behind `from` depends on every
/// other that stands there.
pub open spec fn reached(from: int, pool: PoolView) -> bool {
    forall|i: int| 0 <= from <= i < pool.order.len() - 1 ==> relied(from, pool, #[trigger] pool.order[i])
}

/// What holds of the packages that entered the plan while the package at
/// place `entry` is visited: each is one of the handles `hs`, or a package
/// that entered behind place `entry` depends on it.
#[verifier::opaque]
pub open spec fn reaching(entry: int, cur: PoolView, hs: Seq<PackageRef>) -> bool {
    forall|i: int|
        0 <= entry < i < cur.order.len() ==> hs.contains(#[trigger] cur.order[i]) || relied(
            entry + 1,
            cur,
            cur.order[i],
        )
}

/// Whether the plan grew by what resolving a package named `name` calls
/// for: where packages entered the plan at place `from` or behind it, the
/// last of them is named `name`, and a package that entered depends on every
/// other of them.
pub open spec fn grown(from: int, pool: PoolView, name: Seq<char>) -> bool {
    &&& reached(from, pool)
    &&& 0 <= from < pool.order.len() ==> pool.order.last() < pool.packages.len()
        && pool.packages[pool.order.last() as int].name == name
}

/// When a package has just entered the plan, nothing stands behind it.
pub proof fn lemma_reaching_start(o: PoolView, h: PackageRef)
    ensures
        reaching(o.order.len() as int, entered(o, h), Seq::empty()),
{
    reveal(reaching);
}

/// More handles, in the same plan of the same packages, leave every package
/// called for.
pub proof fn lemma_reaching_same(entry: int, a: PoolView, b: PoolView, hs: Seq<PackageRef>, y: PackageRef)
    requires
        reaching(entry, a, hs),
        a.order == b.order,
        a.packages == b.packages,
    ensures
        reaching(entry, b, hs.push(y)),
{
    reveal(reaching);
    assert forall|i: int| 0 <= entry < i < b.order.len() implies hs.push(y).contains(
        #[trigger] b.order[i],
    ) || relied(entry + 1, b, b.order[i]) by {
        let g = a.order[i];
        if hs.contains(g) {
            let j = choose|j: int| 0 <= j < hs.len() && hs[j] == g;
            assert(hs.push(y)[j] == g);
        } else {
            let i2 = choose|i2: int|
                entry + 1 <= i2 < a.order.len() && 0 <= i2 && a.deps(#[trigger] a.order[i2] as int).contains(
                    g,
                );
            assert(b.deps(b.order[i2] as int).contains(g));
        }
    }
}

/// After the package behind `h2` was visited for a dependency, every
/// package behind place `entry` is called for, with `h2` among the handles.
pub proof fn lemma_reaching_visited(
    entry: int,
    before: PoolView,
    located: PoolView,
    after: PoolView,
    hs: Seq<PackageRef>,
    h2: PackageRef,
)
    requires
        reaching(entry, before, hs),
        0 <= entry < before.order.len(),
        before.handles_valid(),
        located.order == before.order,
        extends(before, located),
        extends(located, after),
        reached(located.order.len() as int, after),
        after.order.len() > located.order.len(),
        after.order[after.order.len() - 1] == h2,
    ensures
        reaching(entry, after, hs.push(h2)),
{
    reveal(reaching);
    assert forall|i: int| 0 <= entry < i < after.order.len() implies hs.push(h2).contains(
        #[trigger] after.order[i],
    ) || relied(entry + 1, after, after.order[i]) by {
        let g = after.order[i];
        if i < located.order.len() {
            assert(after.order.take(located.order.len() as int)[i] == located.order[i]);
            assert(g == before.order[i]);
            if hs.contains(g) {
                let j = choose|j: int| 0 <= j < hs.len() && hs[j] == g;
                assert(hs.push(h2)[j] == g);
            } else {
                let i2 = choose|i2: int|
                    entry + 1 <= i2 < before.order.len() && 0 <= i2 && before.deps(
                        #[trigger] before.order[i2] as int,
                    ).contains(g);
                let g2 = before.order[i2];
                assert(after.order.take(located.order.len() as int)[i2] == located.order[i2]);
                assert(before.order.contains(g2));
                assert(located.order.contains(g2));
                assert(g2 < before.packages.len());
                assert(located.packages[g2 as int] == before.packages[g2 as int]);
                assert(after.packages[g2 as int] == located.packages[g2 as int]);
                assert(after.deps(after.order[i2] as int).contains(g));
            }
        } else if i == after.order.len() - 1 {
            assert(hs.push(h2)[hs.len() as int] == h2);
        } else {
            assert(relied(located.order.len() as int, after, after.order[i]));
            let i2 = choose|i2: int|
                located.order.len() <= i2 < after.order.len() && 0 <= i2 && after.deps(
                    #[trigger] after.order[i2] as int,
                ).contains(g);
            assert(after.deps(after.order[i2] as int).contains(g));
        }
    }
}

/// When the visited package gets its handles and moves to the end of the
/// plan, a package of the plan depends on every other that entered with it.
pub proof fn lemma_reaching_finish(entry: int, mid: PoolView, h: PackageRef, hs: Seq<PackageRef>)
    requires
        reaching(entry, mid, hs),
        0 <= entry < mid.order.len(),
        mid.handles_valid(),
        mid.order[entry] == h,
        forall|i: int| entry < i < mid.order.len() ==> #[trigger] mid.order[i] != h,
    ensures
        reached(entry, finish(mid, entry, hs)),
{
    reveal(reaching);
    let f = finish(mid, entry, hs);
    let last = f.order.len() - 1;
    assert(f.order[last] == h);
    assert(h < mid.packages.len());
    assert(f.deps(h as int) == hs);
    assert forall|i: int| 0 <= entry <= i < f.order.len() - 1 implies relied(
        entry,
        f,
        #[trigger] f.order[i],
    ) by {
        let g = f.order[i];
        assert(g == mid.order[i + 1]);
        if hs.contains(g) {
            assert(f.deps(f.order[last] as int).contains(g));
        } else {
            let i2 = choose|i2: int|
                entry + 1 <= i2 < mid.order.len() && 0 <= i2 && mid.deps(
                    #[trigger] mid.order[i2] as int,
                ).contains(g);
            let g2 = mid.order[i2];
            assert(g2 != h);
            assert(g2 < mid.packages.len());
            assert(f.order[i2 - 1] == g2);
            assert(f.packages[g2 as int] == mid.packages[g2 as int]);
            assert(f.deps(f.order[i2 - 1] as int).contains(g));
        }
    }
}

/// While a package is visited it stands at the place where it entered the
/// plan and nowhere behind it.
pub proof fn lemma_reaching_place(
    ms: Seq<MirrorView>,
    db: DatabaseView,
    o: PoolView,
    cur: PoolView,
    h: PackageRef,
    hs: Seq<PackageRef>,
    names: Seq<Seq<char>>,
)
    requires
        visiting(o, cur, h, hs),
        tracking(ms, db, o, cur, h, hs, names),
    ensures
        o.order.len() < cur.order.len(),
        cur.handles_valid(),
        cur.order[o.order.len() as int] == h,
        forall|i: int| o.order.len() < i < cur.order.len() ==> #[trigger] cur.order[i] != h,
{
    reveal(visiting);
    reveal(tracking);
}

/// Brings the package behind `h`, which is not in the plan, into the plan
/// with all that it depends on: it enters the plan first, so that a cycle
/// ends at it; each of its dependency names is resolved to the package of
/// that name in the plan, or else to the package that is found for the name,
/// which is visited in turn; and then it moves behind them to the end of the
/// plan. A dependency that is unfinished when it is met marks the pool as cyclic.
fn visit(
    h: PackageRef,
    pool: &mut PackagePool,
    mirrors: &Vec<Mirror>,
    db: &Database,
    Ghost(rank): Ghost<spec_fn(Seq<char>) -> nat>,
    Ghost(within): Ghost<Set<Seq<char>>>,
    Ghost(reach): Ghost<Set<Seq<char>>>,
) -> (r: Result<(), LError>)
    requires
        h < old(pool)@.packages.len(),
        old(pool)@.wf(),
        !old(pool)@.names().contains(old(pool)@.packages[h as int].name),
    ensures
        final(pool)@.wf(),
        extends(old(pool)@, final(pool)@),
        faithful(mirrors_view(mirrors@), db@, old(pool)@, final(pool)@, h),
        final(pool)@.order.contains(h) || final(pool)@ == old(pool)@,
        r is Ok ==> final(pool)@.order.len() > old(pool)@.order.len() && final(pool)@.order.last()
            == h && added_finished(old(pool)@, final(pool)@),
        r is Ok ==> reached(old(pool)@.order.len() as int, final(pool)@),
        r is Err ==> resolve_failure(r->Err_0@.class) && resolve_error(
            mirrors_view(mirrors@),
            db@,
            final(pool)@,
            old(pool)@.packages[h as int],
            r->Err_0@,
        ),
        sources_ok(mirrors_view(mirrors@), db@, reach) && resolvable(
            mirrors_view(mirrors@),
            db@,
            reach,
            old(pool)@.packages[h as int],
        ) ==> r is Ok,
        calm(rank, within, mirrors_view(mirrors@), db@, old(pool)@, h) ==> tidy(final(pool)@),
        calm(rank, within, mirrors_view(mirrors@), db@, old(pool)@, h) && r is Ok ==> above(
            rank,
            final(pool)@,
            rank(old(pool)@.packages[h as int].name),
        ),
    decreases remaining(
        old(pool)@,
        old(pool)@.packages[h as int].name,
        mirrors_view(mirrors@),
        db@,
    ),
{
    let ghost o = pool@;
    let ghost ms = mirrors_view(mirrors@);
    let ghost sure = sources_ok(ms, db@, reach) && resolvable(ms, db@, reach, o.packages[h as int]);
    let ghost quiet = calm(rank, within, ms, db@, o, h);
    let names: Vec<String> = match pool.packages[h].dependencies().get_unresolved() {
        Ok(ns) => {
            let copy = ns.clone();
            assert(copy.deep_view() =~= ns.deep_view());
            copy
        },
        Err(e) => {
            proof {
                lemma_extends_refl(o);
            }
            return Err(e);
        },
    };
    assert(o.packages[h as int].dependencies == DependenciesView::Unresolved(names.deep_view()));
    let index_first = match &pool.packages[h] {
        PackageVariant::Installed(_) => true,
        _ => false,
    };
    let entry: usize = pool.order.len();
    pool.order.push(h);
    proof {
        assert(pool@.packages =~= o.packages);
        assert(pool@ == entered(o, h));
        lemma_visiting_start(o, h);
        lemma_tracking_start(ms, db@, o, h, names.deep_view());
        lemma_reaching_start(o, h);
        if quiet {
            lemma_orderly_start(rank, within, o, h);
        }
    }
    let mut new_deps: Vec<PackageRef> = Vec::new();
    let mut k: usize = 0;
    while k < names.len()
        invariant
            k <= names.len(),
            o == old(pool)@,
            ms == mirrors_view(mirrors@),
            entry == o.order.len(),
            h < o.packages.len(),
            new_deps@.len() == k,
            names.deep_view().len() == names@.len(),
            visiting(o, pool@, h, new_deps@),
            tracking(ms, db@, o, pool@, h, new_deps@, names.deep_view()),
            reaching(entry as int, pool@, new_deps@),
            sure == (sources_ok(ms, db@, reach) && resolvable(ms, db@, reach, o.packages[h as int])),
            index_first == (o.packages[h as int].extra is Installed),
            quiet == calm(rank, within, ms, db@, o, h),
            o.packages[h as int].dependencies == DependenciesView::Unresolved(names.deep_view()),
            quiet ==> orderly(rank, within, pool@, h),
            sure ==> sources_ok(ms, db@, reach) && forall|j: int|
                0 <= j < names@.len() ==> reach.contains(#[trigger] names.deep_view()[j]) && (findable(
                    ms,
                    db@,
                    names.deep_view()[j],
                ) || (index_first && db@.has_name(names.deep_view()[j]))),
        decreases names.len() - k,
    {
        let ghost before_pool = pool@;
        let ghost d = names@[k as int]@;
        let found = pool.find_name(names[k].as_str());
        proof {
            lemma_visiting_facts(o, before_pool, h, new_deps@);
            lemma_visiting_order(o, before_pool, h, new_deps@);
            lemma_first_index(before_pool.names(), d);
            assert(names.deep_view()[k as int] == d);
            assert(before_pool.packages[h as int].name == o.packages[h as int].name);
            if quiet {
                assert(ranked(rank, within, o.packages[h as int]));
                let deps = o.packages[h as int].dependencies->Unresolved_0;
                assert(deps == names.deep_view());
                assert(rank(deps[k as int]) < rank(o.packages[h as int].name));
            }
        }
        let y: PackageRef = match found {
            Some(pos) => {
                proof {
                    assert(before_pool.order.contains(before_pool.order[pos as int]));
                    assert(before_pool.order[pos as int] < before_pool.packages.len());
                    assert(before_pool.names()[pos as int] == d);
                    if quiet {
                        lemma_orderly_found(rank, within, before_pool, h, pos as int);
                    }
                    lemma_reaching_same(entry as int, before_pool, before_pool, new_deps@, before_pool.order[pos as int]);
                }
                pool.order[pos]
            },
            None => {
                let h2 = match source(
                    names[k].as_str(),
                    index_first,
                    pool,
                    mirrors,
                    db,
                    Ghost(rank),
                    Ghost(within),
                    Ghost(reach),
                ) {
                    Ok(h2) => h2,
                    Err(e) => {
                        proof {
                            lemma_visiting_place(o, before_pool, h, new_deps@);
                            lemma_tracking_stopped(
                                ms,
                                db@,
                                o,
                                before_pool,
                                h,
                                new_deps@,
                                names.deep_view(),
                            );
                            if quiet {
                                lemma_orderly_facts(rank, within, before_pool, h);
                            }
                            if unfound(ms, db@, d) && e@ == not_found_error(d) {
                                assert(lacks(ms, db@, before_pool, h, d, e@));
                            }
                        }
                        return Err(e);
                    },
                };
                let ghost located = pool@;
                proof {
                    lemma_visiting_located(o, before_pool, located, h, new_deps@);
                    lemma_visiting_measure(o, located, h, new_deps@, d, source_names(ms, db@));
                    lemma_visiting_facts(o, located, h, new_deps@);
                    lemma_tracking_located(
                        ms,
                        db@,
                        o,
                        before_pool,
                        located,
                        h,
                        new_deps@,
                        names.deep_view(),
                    );
                    assert(!located.order.contains(h2)) by {
                        if located.order.contains(h2) {
                            let i = choose|i: int|
                                0 <= i < before_pool.order.len() && before_pool.order[i] == h2;
                            assert(before_pool.order[i] < before_pool.packages.len());
                        }
                    }
                    if quiet {
                        lemma_orderly_located(rank, within, before_pool, located, h, d);
                    }
                }
                match visit(h2, pool, mirrors, db, Ghost(rank), Ghost(within), Ghost(reach)) {
                    Ok(()) => {
                        proof {
                            let after = pool@;
                            lemma_visiting_resolved(o, located, after, h, new_deps@);
                            lemma_tracking_visited(
                                ms,
                                db@,
                                o,
                                located,
                                after,
                                h,
                                h2,
                                new_deps@,
                                names.deep_view(),
                            );
                            assert(after.order[after.order.len() - 1] == h2);
                            assert(after.finished(after.order[after.order.len() - 1] as int));
                            assert(after.packages[h2 as int].name == located.packages[h2 as int].name);
                            lemma_reaching_place(
                                ms,
                                db@,
                                o,
                                before_pool,
                                h,
                                new_deps@,
                                names.deep_view(),
                            );
                            lemma_add_keeps(before_pool, located);
                            lemma_reaching_visited(
                                entry as int,
                                before_pool,
                                located,
                                after,
                                new_deps@,
                                h2,
                            );
                            if quiet {
                                lemma_visiting_order(o, located, h, new_deps@);
                                lemma_visiting_facts(o, after, h, new_deps@);
                                lemma_orderly_resolved(rank, within, located, after, h);
                            }
                        }
                        h2
                    },
                    Err(e) => {
                        proof {
                            let after = pool@;
                            lemma_extends_trans(o, located, after);
                            lemma_tracking_visited(
                                ms,
                                db@,
                                o,
                                located,
                                after,
                                h,
                                h2,
                                new_deps@,
                                names.deep_view(),
                            );
                            lemma_visiting_order(o, located, h, new_deps@);
                            lemma_visiting_place(o, located, h, new_deps@);
                            lemma_resolve_error_up(
                                ms,
                                db@,
                                after,
                                located.packages[h2 as int],
                                o.packages[h as int],
                                e@,
                            );
                            assert(after.order.take(located.order.len() as int)[entry as int]
                                == located.order[entry as int]);
                            lemma_tracking_stopped(
                                ms,
                                db@,
                                o,
                                after,
                                h,
                                new_deps@,
                                names.deep_view(),
                            );
                        }
                        return Err(e);
                    },
                }
            },
        };
        let ghost cur = pool@;
        proof {
            lemma_visiting_facts(o, cur, h, new_deps@);
            let i = choose|i: int| 0 <= i < cur.order.len() && cur.order[i] == y;
            assert(cur.order[i] < cur.packages.len());
        }
        if !pool.is_finished(y) {
            pool.cyclic = true;
        }
        proof {
            assert(pool@.packages =~= cur.packages);
            assert(reaching(entry as int, cur, new_deps@.push(y)));
            assert(reaching(entry as int, pool@, new_deps@.push(y))) by {
                reveal(reaching);
                assert(pool@.order == cur.order);
            }
            lemma_visiting_noted(o, cur, pool@, h, new_deps@, y);
            lemma_tracking_push(ms, db@, o, cur, pool@, h, new_deps@, names.deep_view(), y);
            if quiet {
                lemma_orderly_facts(rank, within, cur, h);
                assert(pool@ == cur);
            }
        }
        new_deps.push(y);
        k = k + 1;
    }
    let ghost mid = pool@;
    let ghost hs = new_deps@;
    proof {
        lemma_visiting_finish(o, mid, h, hs);
        lemma_tracking_finish(ms, db@, o, mid, h, hs, names.deep_view());
        lemma_reaching_place(ms, db@, o, mid, h, hs, names.deep_view());
        lemma_reaching_finish(entry as int, mid, h, hs);
        if quiet {
            lemma_orderly_finish(rank, within, o, mid, h, hs);
        }
    }
    pool.set_dependencies(h, Dependencies::Resolved(new_deps));
    pool.order.remove(entry);
    pool.order.push(h);
    proof {
        let f = pool@;
        assert(f.packages =~= finish(mid, entry as int, hs).packages);
        assert(f.order =~= finish(mid, entry as int, hs).order);
        assert(f == finish(mid, entry as int, hs));
        assert(f.order[f.order.len() - 1] == h);
    }
    Ok(())
}

/// While a package is visited, it stands in the plan at the place where it
/// entered, unfinished.
pub proof fn lemma_visiting_place(o: PoolView, cur: PoolView, h: PackageRef, hs: Seq<PackageRef>)
    requires
        visiting(o, cur, h, hs),
    ensures
        o.order.len() < cur.order.len(),
        cur.order[o.order.len() as int] == h,
        !cur.finished(h as int),
{
    reveal(visiting);
}

/// Whether the package behind `h` enters the plan as itself when it is
/// resolved: it does where no installed package of its name takes its place.
pub open spec fn enters_itself(db: DatabaseView, p: PackageView) -> bool {
    !db.has_name(p.name) || p.extra is Installed
}

/// Brings the package behind `h` into the plan unless a package of the same
/// hash or the same name is there, and returns the handle that stands for it
/// in the plan. An installed package of the same name takes its place.
fn resolve_into(
    h: PackageRef,
    pool: &mut PackagePool,
    mirrors: &Vec<Mirror>,
    db: &Database,
    Ghost(rank): Ghost<spec_fn(Seq<char>) -> nat>,
    Ghost(within): Ghost<Set<Seq<char>>>,
    Ghost(reach): Ghost<Set<Seq<char>>>,
) -> (r: Result<PackageRef, LError>)
    requires
        h < old(pool)@.packages.len(),
        old(pool)@.wf(),
    ensures
        final(pool)@.wf(),
        extends(old(pool)@, final(pool)@),
        faithful(mirrors_view(mirrors@), db@, old(pool)@, final(pool)@, h),
        old(pool)@.hashes().contains(old(pool)@.packages[h as int].hash) || old(pool)@.names().contains(old(pool)@.packages[h as int].name) ==> r is Ok && final(pool)@ == old(pool)@,
        final(pool)@.order.len() > old(pool)@.order.len() ==> (final(pool)@.order.contains(h)
            <==> enters_itself(db@, old(pool)@.packages[h as int])),
        !final(pool)@.order.contains(h) || old(pool)@.order.contains(h) ==> final(pool)@.packages[h as int] == old(pool)@.packages[h as int],
        r is Ok ==> final(pool)@.order.contains(r->Ok_0) && added_finished(
            old(pool)@,
            final(pool)@,
        ) && represents(final(pool)@, r->Ok_0, old(pool)@.packages[h as int]),
        r is Ok && !old(pool)@.hashes().contains(old(pool)@.packages[h as int].hash) ==> final(pool)@.packages[r->Ok_0 as int].name == old(pool)@.packages[h as int].name,
        r is Ok ==> grown(old(pool)@.order.len() as int, final(pool)@, old(pool)@.packages[h as int].name),
        r is Err ==> resolve_failure(r->Err_0@.class) && resolve_error(
            mirrors_view(mirrors@),
            db@,
            final(pool)@,
            old(pool)@.packages[h as int],
            r->Err_0@,
        ),
        able(mirrors_view(mirrors@), db@, reach, old(pool)@.packages[h as int]) ==> r is Ok,
        settled(rank, within, mirrors_view(mirrors@), db@, old(pool)@, h) ==> tidy(final(pool)@),
{
    let ghost o = pool@;
    let ghost ms = mirrors_view(mirrors@);
    let ghost quiet = settled(rank, within, ms, db@, o, h);
    let name = String::from_str(pool.packages[h].name());
    let hash = String::from_str(pool.packages[h].hash());
    proof {
        lemma_extends_refl(o);
        lemma_first_index(o.hashes(), hash@);
        lemma_first_index(o.names(), name@);
    }
    match pool.find_hash(hash.as_str()) {
        Some(pos) => {
            assert(o.hashes()[pos as int] == hash@);
            return Ok(pool.order[pos]);
        },
        None => {},
    }
    match pool.find_name(name.as_str()) {
        Some(pos) => {
            assert(o.names()[pos as int] == name@);
            return Ok(pool.order[pos]);
        },
        None => {},
    }
    assert(!o.order.contains(h)) by {
        if o.order.contains(h) {
            let i = choose|i: int| 0 <= i < o.order.len() && o.order[i] == h;
            assert(o.names()[i] == name@);
        }
    }
    let installed = match &pool.packages[h] {
        PackageVariant::Installed(_) => true,
        _ => false,
    };
    let known = if installed {
        None
    } else {
        db.find_package(name.as_str())
    };
    proof {
        lemma_first_index(db@.names(), name@);
    }
    match known {
        Some(i) => {
            let s = add_stub(db, i, pool);
            let ghost added = pool@;
            proof {
                assert(added.packages.take(o.packages.len() as int) =~= o.packages);
                lemma_add_keeps(o, added);
                assert(db@.names()[i as int] == name@);
                lemma_stub_facts(ms, db@, i as int, rank, within, reach);
                if quiet {
                    lemma_calm_added(rank, within, ms, db@, o, added, h, s, i as int);
                }
            }
            let outcome = visit(s, pool, mirrors, db, Ghost(rank), Ghost(within), Ghost(reach));
            proof {
                let f = pool@;
                lemma_extends_trans(o, added, f);
                lemma_faithful_shifted(ms, db@, o, added, f, h, s);
                if outcome is Err {
                    lemma_resolve_error_up(
                        ms,
                        db@,
                        f,
                        added.packages[s as int],
                        o.packages[h as int],
                        outcome->Err_0@,
                    );
                }
            }
            match outcome {
                Ok(()) => {
                    proof {
                        assert(pool@.order[pool@.order.len() - 1] == s);
                        assert(pool@.finished(pool@.order[pool@.order.len() - 1] as int));
                    }
                    Ok(s)
                },
                Err(e) => Err(e),
            }
        },
        None => {
            match visit(h, pool, mirrors, db, Ghost(rank), Ghost(within), Ghost(reach)) {
                Ok(()) => {
                    proof {
                        assert(pool@.order[pool@.order.len() - 1] == h);
                        assert(pool@.finished(pool@.order[pool@.order.len() - 1] as int));
                    }
                    Ok(h)
                },
                Err(e) => Err(e),
            }
        },
    }
}

/// Where the package that stands for an installed package was visited in the
/// place of the package behind `h`, the pool is faithful to its sources with
/// regard to `h`, which did not enter the plan.
pub proof fn lemma_faithful_shifted(
    ms: Seq<MirrorView>,
    db: DatabaseView,
    o: PoolView,
    added: PoolView,
    f: PoolView,
    h: PackageRef,
    s: PackageRef,
)
    requires
        o.handles_valid(),
        h < o.packages.len(),
        s == o.packages.len(),
        added.order == o.order,
        added.packages.len() == o.packages.len() + 1,
        added.packages.take(o.packages.len() as int) == o.packages,
        sourced(ms, db, added.packages[s as int]),
        extends(added, f),
        faithful(ms, db, added, f, s),
    ensures
        faithful(ms, db, o, f, h),
        f.packages[h as int] == o.packages[h as int],
        f.order.len() > o.order.len() ==> !f.order.contains(h) || o.order.contains(h),
{
    assert forall|g: int| 0 <= g < o.packages.len() implies #[trigger] f.packages[g]
        == o.packages[g] by {
        assert(added.packages.take(o.packages.len() as int)[g] == o.packages[g]);
    }
    assert forall|i: int| o.order.len() <= i < f.order.len() implies entered_well(
        ms,
        db,
        o,
        f,
        h,
        #[trigger] f.order[i],
    ) by {
        assert(entered_well(ms, db, added, f, s, f.order[i]));
    }
    if f.order.contains(h) && !o.order.contains(h) {
        let i = choose|i: int| 0 <= i < f.order.len() && f.order[i] == h;
        if i < o.order.len() {
            assert(f.order.take(added.order.len() as int)[i] == added.order[i]);
            assert(o.order.contains(h));
        } else {
            assert(entered_well(ms, db, added, f, s, f.order[i]));
        }
    }
}

/// Whether the package behind `r` stands in the pool for `p`: it has the name
/// of `p` or the hash of `p`.
pub open spec fn represents(pool: PoolView, r: PackageRef, p: PackageView) -> bool {
    r < pool.packages.len() && (pool.packages[r as int].name == p.name || pool.packages[r as int].hash
        == p.hash)
}

/// Whether the package behind `g` has a handle that `old` did not have and
/// is the package that resolving takes for its name, with its dependencies
/// resolved to packages of its dependency names, in order.
pub open spec fn sourced_entry(
    ms: Seq<MirrorView>,
    db: DatabaseView,
    old: PoolView,
    new: PoolView,
    g: PackageRef,
) -> bool {
    &&& old.packages.len() <= g < new.packages.len()
    &&& deps_valid(new, g as int)
    &&& sourced(ms, db, before(new, g as int))
}

/// Whether every package that entered the plan since `old` is the package
/// that resolving takes for its name: the installed package of that name
/// where there is one, else the first of that name in the mirrors.
pub open spec fn all_sourced(ms: Seq<MirrorView>, db: DatabaseView, old: PoolView, new: PoolView) -> bool {
    forall|i: int|
        old.order.len() <= i < new.order.len() ==> sourced_entry(ms, db, old, new, #[trigger] new.order[i])
}

/// Whether a package of the plan stands for the name `name`: it has that
/// name, or it has the hash of the package that the mirrors have for the name.
pub open spec fn stands_for(ms: Seq<MirrorView>, pool: PoolView, name: Seq<char>) -> bool {
    exists|g: PackageRef|
        #[trigger] pool.order.contains(g) && g < pool.packages.len() && (pool.packages[g as int].name
            == name || match lookup(ms, name) {
            Lookup::Found(m, i) => pool.packages[g as int].hash == ms[m].packages->Some_0[i].hash,
            _ => false,
        })
}

/// A package that stands for a name goes on doing so while the pool is extended.
pub proof fn lemma_stands_for_kept(ms: Seq<MirrorView>, a: PoolView, b: PoolView, name: Seq<char>)
    requires
        stands_for(ms, a, name),
        extends(a, b),
    ensures
        stands_for(ms, b, name),
{
    let g = choose|g: PackageRef|
        #[trigger] a.order.contains(g) && g < a.packages.len() && (a.packages[g as int].name == name
            || match lookup(ms, name) {
            Lookup::Found(m, i) => a.packages[g as int].hash == ms[m].packages->Some_0[i].hash,
            _ => false,
        });
    let i = choose|i: int| 0 <= i < a.order.len() && a.order[i] == g;
    assert(b.order.take(a.order.len() as int)[i] == a.order[i]);
    assert(b.order.contains(g));
    assert(b.packages[g as int] == a.packages[g as int]);
}

/// Resolving one more package of a mirror keeps all that entered the plan
/// sourced.
pub proof fn lemma_all_sourced_step(
    ms: Seq<MirrorView>,
    db: DatabaseView,
    o: PoolView,
    prior: PoolView,
    located: PoolView,
    after: PoolView,
    h: PackageRef,
)
    requires
        all_sourced(ms, db, o, prior),
        prior.handles_valid(),
        o.packages.len() <= prior.packages.len(),
        h == prior.packages.len(),
        located.order == prior.order,
        located.packages.len() == prior.packages.len() + 1,
        located.packages.take(prior.packages.len() as int) == prior.packages,
        located.packages[h as int].extra is Remote,
        lookup(ms, located.packages[h as int].name) matches Lookup::Found(m, i) && located.packages[h as int]
            == ms[m].packages->Some_0[i],
        extends(located, after),
        faithful(ms, db, located, after, h),
        after.order.len() > located.order.len() ==> (after.order.contains(h) <==> enters_itself(
            db,
            located.packages[h as int],
        )),
    ensures
        all_sourced(ms, db, o, after),
{
    assert forall|x: int| 0 <= x < prior.packages.len() implies #[trigger] located.packages[x]
        == prior.packages[x] by {
        assert(located.packages.take(prior.packages.len() as int)[x] == prior.packages[x]);
    }
    assert forall|i: int| o.order.len() <= i < after.order.len() implies sourced_entry(
        ms,
        db,
        o,
        after,
        #[trigger] after.order[i],
    ) by {
        let g = after.order[i];
        if i < prior.order.len() {
            assert(after.order.take(located.order.len() as int)[i] == located.order[i]);
            assert(prior.order.contains(g));
            assert(prior.order[i] < prior.packages.len());
            assert(sourced_entry(ms, db, o, prior, g));
            assert(after.packages[g as int] == located.packages[g as int]);
            assert(after.deps(g as int) == prior.deps(g as int));
            assert(names_behind(after.packages, after.deps(g as int)) =~= names_behind(
                prior.packages,
                prior.deps(g as int),
            )) by {
                assert forall|j: int| 0 <= j < prior.deps(g as int).len() implies after.packages[prior.deps(
                    g as int,
                )[j] as int].name == prior.packages[prior.deps(g as int)[j] as int].name by {
                    let d = prior.deps(g as int)[j];
                    assert(d < prior.packages.len());
                    assert(after.packages[d as int].name == located.packages[d as int].name);
                }
            }
            assert(before(after, g as int) == before(prior, g as int));
        } else {
            assert(entered_well(ms, db, located, after, h, g));
            if g == h {
                assert(after.order.contains(h));
            }
        }
    }
}

/// Whether no cycle can be met when the package `p` is resolved into `pool`:
/// no cycle was met in the pool so far, and there are a set of names with
/// the name of `p` and a rank such that `p`, and the package that resolving
/// takes for each name of the set, depends only on names of the set, each of
/// a lower rank than its own. The set need hold no more than the names that
/// resolving `p` comes to.
pub open spec fn cycle_free(ms: Seq<MirrorView>, db: DatabaseView, pool: PoolView, p: PackageView) -> bool {
    exists|rank: spec_fn(Seq<char>) -> nat, within: Set<Seq<char>>|
        #[trigger] layered(rank, within, ms, db) && tidy(pool) && within.contains(p.name) && (
        enters_itself(db, p) ==> ranked(rank, within, p))
}

/// Whether no cycle can be met when the packages named `names` are resolved
/// into `pool`: no cycle was met in the pool so far, and there are a set of
/// names with `names` and a rank such that the package that resolving takes
/// for each name of the set depends only on names of the set, each of a
/// lower rank than its own.
pub open spec fn layers_exist(
    ms: Seq<MirrorView>,
    db: DatabaseView,
    pool: PoolView,
    names: Seq<Seq<char>>,
) -> bool {
    exists|rank: spec_fn(Seq<char>) -> nat, within: Set<Seq<char>>|
        #[trigger] layered(rank, within, ms, db) && tidy(pool) && forall|k: int|
            0 <= k < names.len() ==> within.contains(#[trigger] names[k])
}

/// A tidy pool stays tidy when a package gets a handle without entering the plan.
pub proof fn lemma_tidy_added(a: PoolView, b: PoolView)
    requires
        tidy(a),
        a.handles_valid(),
        b.order == a.order,
        b.cyclic == a.cyclic,
        b.packages.len() >= a.packages.len(),
        b.packages.take(a.packages.len() as int) == a.packages,
    ensures
        tidy(b),
        a.resolved() ==> b.resolved(),
{
    assert forall|g: int| 0 <= g < a.packages.len() implies #[trigger] b.packages[g]
        == a.packages[g] by {
        assert(b.packages.take(a.packages.len() as int)[g] == a.packages[g]);
    }
    assert forall|g: PackageRef| #[trigger] b.order.contains(g) implies g < a.packages.len()
        && a.order.contains(g) by {
        let i = choose|i: int| 0 <= i < a.order.len() && a.order[i] == g;
        assert(a.order[i] < a.packages.len());
    }
    if a.resolved() {
        assert forall|i: int| 0 <= i < b.order.len() implies b.finished(#[trigger] b.order[i] as int) by {
            assert(a.finished(a.order[i] as int));
            assert(a.order[i] < a.packages.len());
        }
    }
}

/// Resolves the package behind `package` into the pool, for a given rank of
/// every name and a given name of every hash.
pub(crate) fn resolve_with(
    package: PackageRef,
    pool: &mut PackagePool,
    mirrors: &Vec<Mirror>,
    db: &Database,
    Ghost(rank): Ghost<spec_fn(Seq<char>) -> nat>,
    Ghost(within): Ghost<Set<Seq<char>>>,
    Ghost(reach): Ghost<Set<Seq<char>>>,
) -> (r: Result<(), LError>)
    requires
        old(pool)@.wf(),
        package < old(pool)@.packages.len(),
    ensures
        final(pool)@.wf(),
        extends(old(pool)@, final(pool)@),
        r is Ok ==> added_finished(old(pool)@, final(pool)@) && exists|g: PackageRef|
            final(pool)@.order.contains(g) && #[trigger] represents(
                final(pool)@,
                g,
                old(pool)@.packages[package as int],
            ),
        r is Ok && old(pool)@.resolved() ==> final(pool)@.resolved(),
        r is Ok ==> grown(
            old(pool)@.order.len() as int,
            final(pool)@,
            old(pool)@.packages[package as int].name,
        ),
        r is Err ==> resolve_failure(r->Err_0@.class) && resolve_error(
            mirrors_view(mirrors@),
            db@,
            final(pool)@,
            old(pool)@.packages[package as int],
            r->Err_0@,
        ),
        faithful(mirrors_view(mirrors@), db@, old(pool)@, final(pool)@, package),
        old(pool)@.hashes().contains(old(pool)@.packages[package as int].hash) || old(pool)@.names().contains(old(pool)@.packages[package as int].name) ==> r is Ok && final(pool)@
            == old(pool)@,
        final(pool)@.order.len() > old(pool)@.order.len() ==> (final(pool)@.order.contains(package)
            <==> enters_itself(db@, old(pool)@.packages[package as int])),
        !final(pool)@.order.contains(package) || old(pool)@.order.contains(package) ==> final(pool)@.packages[package as int] == old(pool)@.packages[package as int],
        r is Ok && !old(pool)@.hashes().contains(old(pool)@.packages[package as int].hash) ==> exists|
            g: PackageRef,
        |
            #[trigger] final(pool)@.order.contains(g) && g < final(pool)@.packages.len() && final(pool)@.packages[g as int].name == old(pool)@.packages[package as int].name,
        able(mirrors_view(mirrors@), db@, reach, old(pool)@.packages[package as int]) ==> r is Ok,
        old(pool)@.resolved() && settled(
            rank,
            within,
            mirrors_view(mirrors@),
            db@,
            old(pool)@,
            package,
        ) ==> tidy(final(pool)@),
{
    proof {
        let o = old(pool)@;
        if o.resolved() {
            assert forall|g: PackageRef|
                #[trigger] o.order.contains(g) && g < o.packages.len() implies o.finished(
                g as int,
            ) by {
                let i = choose|i: int| 0 <= i < o.order.len() && o.order[i] == g;
                assert(o.finished(o.order[i] as int));
            }
        }
    }
    match resolve_into(package, pool, mirrors, db, Ghost(rank), Ghost(within), Ghost(reach)) {
        Ok(g) => {
            proof {
                let o = old(pool)@;
                let f = pool@;
                if o.resolved() {
                    assert forall|i: int| 0 <= i < f.order.len() implies f.finished(
                        #[trigger] f.order[i] as int,
                    ) by {
                        if i < o.order.len() {
                            assert(f.order.take(o.order.len() as int)[i] == o.order[i]);
                            assert(o.order.contains(o.order[i]));
                            assert(o.finished(o.order[i] as int));
                        }
                    }
                }
            }
            Ok(())
        },
        Err(e) => Err(e),
    }
}

/// Resolves the dependencies of the package behind `package` into the pool,
/// using the mirrors and the index of installed packages. A package whose
/// hash or name is in the plan already is taken as visited. An installed
/// package of the same name takes the place of the package, with its recorded
/// dependencies, and the package itself stays as it was. Else the package
/// enters the plan, each of its dependency names is resolved to the package
/// of that name in the plan or looked up and resolved in turn, and the
/// package moves behind them to the end of the plan. A name is looked up in
/// the mirrors, where an installed package of that name takes the place of
/// what was found; what an installed package depends on is looked up among
/// the installed packages first. The plan gains the package, what it comes
/// to through dependencies, and nothing else. Where a dependency is met that
/// is being resolved itself, the pool is marked as cyclic; a pool that is
/// not marked holds every package behind all that it depends on.
pub fn resolve_dependencies(
    package: PackageRef,
    pool: &mut PackagePool,
    mirrors: &Vec<Mirror>,
    db: &DBTransaction,
) -> (r: Result<(), LError>)
    requires
        old(pool)@.wf(),
    ensures
        final(pool)@.wf(),
        extends(old(pool)@, final(pool)@),
        package >= old(pool)@.packages.len() ==> r is Err && r->Err_0@ == dangling_error()
            && final(pool)@ == old(pool)@,
        r is Ok ==> added_finished(old(pool)@, final(pool)@) && exists|g: PackageRef|
            final(pool)@.order.contains(g) && #[trigger] represents(
                final(pool)@,
                g,
                old(pool)@.packages[package as int],
            ),
        r is Ok && old(pool)@.resolved() ==> final(pool)@.resolved(),
        r is Ok ==> grown(
            old(pool)@.order.len() as int,
            final(pool)@,
            old(pool)@.packages[package as int].name,
        ),
        r is Err && package < old(pool)@.packages.len() ==> resolve_failure(r->Err_0@.class)
            && resolve_error(
            mirrors_view(mirrors@),
            db@,
            final(pool)@,
            old(pool)@.packages[package as int],
            r->Err_0@,
        ),
        package < old(pool)@.packages.len() ==> faithful(
            mirrors_view(mirrors@),
            db@,
            old(pool)@,
            final(pool)@,
            package,
        ),
        package < old(pool)@.packages.len() && (old(pool)@.hashes().contains(
            old(pool)@.packages[package as int].hash,
        ) || old(pool)@.names().contains(old(pool)@.packages[package as int].name)) ==> r is Ok
            && final(pool)@ == old(pool)@,
        package < old(pool)@.packages.len() && final(pool)@.order.len() > old(pool)@.order.len() ==> (
        final(pool)@.order.contains(package) <==> enters_itself(
            db@,
            old(pool)@.packages[package as int],
        )),
        package < old(pool)@.packages.len() && (!final(pool)@.order.contains(package) || old(pool)@.order.contains(package)) ==> final(pool)@.packages[package as int] == old(pool)@.packages[package as int],
        package < old(pool)@.packages.len() && r is Ok && !old(pool)@.hashes().contains(
            old(pool)@.packages[package as int].hash,
        ) ==> exists|g: PackageRef|
            #[trigger] final(pool)@.order.contains(g) && g < final(pool)@.packages.len() && final(pool)@.packages[g as int].name == old(pool)@.packages[package as int].name,
        package < old(pool)@.packages.len() && (exists|reach: Set<Seq<char>>| #[trigger]
            able(mirrors_view(mirrors@), db@, reach, old(pool)@.packages[package as int])) ==> r is Ok,
        package < old(pool)@.packages.len() && old(pool)@.resolved() && cycle_free(
            mirrors_view(mirrors@),
            db@,
            old(pool)@,
            old(pool)@.packages[package as int],
        ) ==> !final(pool)@.cyclic && final(pool)@.sorted(),
{
    if package >= pool.packages.len() {
        proof {
            lemma_extends_refl(pool@);
        }
        return Err(
            LError::new(
                LErrorClass::PackageNotFound,
                "A dependency refers to a package that is not in the pool",
            ),
        );
    }
    let ghost ms = mirrors_view(mirrors@);
    let ghost o = pool@;
    let ghost p = o.packages[package as int];
    let ghost witness = choose|w: (spec_fn(Seq<char>) -> nat, Set<Seq<char>>)|
        #[trigger] layered(w.0, w.1, ms, db@) && tidy(o) && w.1.contains(p.name) && (enters_itself(
            db@,
            p,
        ) ==> ranked(w.0, w.1, p));
    proof {
        if cycle_free(ms, db@, o, p) {
            let (rank, within) = choose|
                rank: spec_fn(Seq<char>) -> nat,
                within: Set<Seq<char>>,
            |
                #[trigger] layered(rank, within, ms, db@) && tidy(o) && within.contains(p.name) && (
                enters_itself(db@, p) ==> ranked(rank, within, p));
            let w = (rank, within);
            assert(layered(w.0, w.1, ms, db@) && tidy(o) && w.1.contains(p.name) && (enters_itself(
                db@,
                p,
            ) ==> ranked(w.0, w.1, p)));
        }
    }
    let ghost reach = choose|reach: Set<Seq<char>>| #[trigger] able(ms, db@, reach, p);
    resolve_with(package, pool, mirrors, &db.db, Ghost(witness.0), Ghost(witness.1), Ghost(reach))
}

/// Whether nothing stands in the plan at place `from` or behind it without
/// being called for: each package there has one of the names `names`, or a
/// package that stands there depends on it.
pub open spec fn wanted_only(from: int, pool: PoolView, names: Seq<Seq<char>>) -> bool {
    forall|i: int|
        0 <= from <= i < pool.order.len() ==> (#[trigger] pool.order[i] < pool.packages.len()
            && names.contains(pool.packages[pool.order[i] as int].name)) || relied(
            from,
            pool,
            pool.order[i],
        )
}

/// Resolving a package of one of the names leaves nothing in the plan that
/// is not called for.
pub proof fn lemma_wanted_step(
    from: int,
    prior: PoolView,
    after: PoolView,
    names: Seq<Seq<char>>,
    name: Seq<char>,
)
    requires
        wanted_only(from, prior, names),
        0 <= from <= prior.order.len(),
        prior.handles_valid(),
        extends(prior, after),
        grown(prior.order.len() as int, after, name),
        names.contains(name),
    ensures
        wanted_only(from, after, names),
{
    assert forall|i: int| 0 <= from <= i < after.order.len() implies (#[trigger] after.order[i]
        < after.packages.len() && names.contains(after.packages[after.order[i] as int].name)) || relied(
        from,
        after,
        after.order[i],
    ) by {
        let g = after.order[i];
        if i < prior.order.len() {
            assert(after.order.take(prior.order.len() as int)[i] == prior.order[i]);
            assert(prior.order.contains(g));
            assert(prior.order[i] < prior.packages.len());
            assert(after.packages[g as int] == prior.packages[g as int]);
            if !(names.contains(prior.packages[g as int].name)) {
                let i2 = choose|i2: int|
                    from <= i2 < prior.order.len() && 0 <= i2 && prior.deps(
                        #[trigger] prior.order[i2] as int,
                    ).contains(g);
                let g2 = prior.order[i2];
                assert(after.order.take(prior.order.len() as int)[i2] == prior.order[i2]);
                assert(prior.order.contains(g2));
                assert(g2 < prior.packages.len());
                assert(after.packages[g2 as int] == prior.packages[g2 as int]);
                assert(after.deps(after.order[i2] as int).contains(g));
            }
        } else if i == after.order.len() - 1 {
            assert(after.order.last() == g);
        } else {
            assert(relied(prior.order.len() as int, after, after.order[i]));
            let i2 = choose|i2: int|
                prior.order.len() <= i2 < after.order.len() && 0 <= i2 && after.deps(
                    #[trigger] after.order[i2] as int,
                ).contains(g);
            assert(after.deps(after.order[i2] as int).contains(g));
        }
    }
}

/// Every package that entered the plan was found for its name: an
/// installed package of that name exists, or the mirrors have one. So
/// resolving succeeds only where every name that it comes to can be found.
pub proof fn lemma_entered_found(ms: Seq<MirrorView>, db: DatabaseView, old: PoolView, new: PoolView, i: int)
    requires
        all_sourced(ms, db, old, new),
        old.order.len() <= i < new.order.len(),
    ensures
        db.has_name(new.packages[new.order[i] as int].name) || lookup(
            ms,
            new.packages[new.order[i] as int].name,
        ) is Found,
        db.has_name(new.packages[new.order[i] as int].name) ==> new.packages[new.order[i] as int].extra is Installed,
{
    let g = new.order[i];
    assert(sourced_entry(ms, db, old, new, g));
    assert(before(new, g as int).name == new.packages[g as int].name);
    assert(before(new, g as int).extra == new.packages[g as int].extra);
}

/// Every dependency of a package that entered the plan fully resolved is in
/// the plan: it was there before, or it entered the plan as well and was
/// found for its name.
pub proof fn lemma_dependency_found(
    ms: Seq<MirrorView>,
    db: DatabaseView,
    old: PoolView,
    new: PoolView,
    i: int,
    j: int,
)
    requires
        new.wf(),
        extends(old, new),
        all_sourced(ms, db, old, new),
        old.order.len() <= i < new.order.len(),
        0 <= j < new.deps(new.order[i] as int).len(),
    ensures
        new.order.contains(new.deps(new.order[i] as int)[j]),
        old.order.contains(new.deps(new.order[i] as int)[j]) || db.has_name(
            new.packages[new.deps(new.order[i] as int)[j] as int].name,
        ) || lookup(ms, new.packages[new.deps(new.order[i] as int)[j] as int].name) is Found,
{
    let d = new.deps(new.order[i] as int)[j];
    assert(new.order.contains(d));
    let at = choose|at: int| 0 <= at < new.order.len() && new.order[at] == d;
    if at < old.order.len() {
        assert(new.order.take(old.order.len() as int)[at] == old.order[at]);
    } else {
        lemma_entered_found(ms, db, old, new, at);
    }
}

} // verus!
