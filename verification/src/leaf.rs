//! The handle through which the package manager is used.
use vstd::prelude::*;
use crate::actions::{
    errors_view, fetch_jobs, files_view, install, install_failure, jobs_view, shorter, update,
    update_errors, update_files, FetchJob, UpdateOutcome,
};
use crate::config::Config;
use crate::db::DBConnection;
use crate::error::LError;
use crate::mirror::{mirrors_view, Mirror};
use crate::package::PackagePool;
use crate::util::dependencies::{added_finished, extends};

verus! {

/// A package manager instance: its settings, its mirrors and the pool of
/// packages that it has resolved so far.
#[derive(Debug)]
pub struct Leaf {
    pub config: Config,
    pub mirrors: Vec<Mirror>,
    pub pool: PackagePool,
}

impl Leaf {
    /// Constructs a new handle using the supplied mirrors and a default config.
    pub fn new(mirrors: Vec<Mirror>) -> (r: Leaf)
        ensures
            r.mirrors == mirrors,
            r.config.root is None,
            r.config.force is None,
            r.config.render_bar,
            r.pool@.order.len() == 0,
            r.pool@.packages.len() == 0,
            r.pool@.wf(),
    {
        Leaf { config: Config::default(), mirrors, pool: PackagePool::new() }
    }

    /// Updates the local package index from the answers of the mirrors.
    pub fn update(&mut self, responses: &Vec<Result<Vec<u8>, LError>>) -> (r: UpdateOutcome)
        ensures
            *final(self) == *old(self),
            files_view(r.files@) == update_files(
                mirrors_view(old(self).mirrors@),
                old(self).config,
                responses@,
                shorter(old(self).mirrors@.len(), responses@.len()),
            ),
            errors_view(r.errors@) == update_errors(
                mirrors_view(old(self).mirrors@),
                old(self).config,
                responses@,
                shorter(old(self).mirrors@.len(), responses@.len()),
            ),
    {
        update(&self.config, &self.mirrors, responses)
    }

    /// Plans the installation of the supplied packages into the pool and
    /// returns the downloads that it asks for.
    pub fn install(&mut self, packages: &Vec<String>, db_con: &DBConnection) -> (r: Result<
        Vec<FetchJob>,
        LError,
    >)
        requires
            old(self).pool@.wf(),
        ensures
            final(self).pool@.wf(),
            final(self).mirrors == old(self).mirrors,
            final(self).config == old(self).config,
            extends(old(self).pool@, final(self).pool@),
            r is Ok ==> added_finished(old(self).pool@, final(self).pool@) && jobs_view(r->Ok_0@)
                == fetch_jobs(
                final(self).pool@,
                final(self).config,
                final(self).pool@.order.len() as int,
            ),
            r is Ok && old(self).pool@.resolved() ==> final(self).pool@.resolved(),
            r is Err ==> install_failure(r->Err_0@.class) && crate::actions::install_error(
                mirrors_view(old(self).mirrors@),
                db_con@,
                final(self).pool@,
                packages@,
                r->Err_0@,
            ),
            crate::util::dependencies::all_sourced(
                mirrors_view(old(self).mirrors@),
                db_con@,
                old(self).pool@,
                final(self).pool@,
            ),
            r is Ok ==> forall|k: int|
                0 <= k < packages@.len() ==> crate::util::dependencies::stands_for(
                    mirrors_view(old(self).mirrors@),
                    final(self).pool@,
                    #[trigger] packages@[k]@,
                ),
            r is Ok ==> crate::util::dependencies::wanted_only(
                old(self).pool@.order.len() as int,
                final(self).pool@,
                packages.deep_view(),
            ),
            packages@.len() > 0 ==> match crate::mirror::lookup(
                mirrors_view(old(self).mirrors@),
                packages@[0]@,
            ) {
                crate::mirror::Lookup::Missing => r is Err && r->Err_0@ == crate::mirror::not_found_error(
                    packages@[0]@,
                ) && final(self).pool@ == old(self).pool@,
                crate::mirror::Lookup::NotLoaded(m) => r is Err && r->Err_0@
                    == crate::mirror::not_loaded_error(old(self).mirrors@[m]@) && final(self).pool@
                    == old(self).pool@,
                crate::mirror::Lookup::Found(_, _) => true,
            },
            old(self).pool@.resolved() && crate::util::dependencies::layers_exist(
                mirrors_view(old(self).mirrors@),
                db_con@,
                old(self).pool@,
                packages.deep_view(),
            ) ==> !final(self).pool@.cyclic && final(self).pool@.sorted(),
            crate::actions::supplied(
                mirrors_view(old(self).mirrors@),
                db_con@,
                packages.deep_view(),
            ) ==> r is Ok,
    {
        install(&self.config, packages, &self.mirrors, &mut self.pool, db_con)
    }

    /// Clears the internal pool of packages, forcing new resolving of
    /// installed, local and remote packages.
    pub fn drop_pool(&mut self)
        ensures
            final(self).pool@.order.len() == 0,
            final(self).pool@.packages.len() == 0,
            !final(self).pool@.cyclic,
            final(self).pool@.wf(),
            final(self).mirrors == old(self).mirrors,
            final(self).config == old(self).config,
    {
        self.pool = PackagePool::new();
    }
}

} // verus!
