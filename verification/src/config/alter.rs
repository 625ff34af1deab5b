//! Changing the list of mirrors of a configuration.
use vstd::prelude::*;
use crate::config::Config;
use crate::mirror::{Mirror, MirrorView};

verus! {

/// Whether two mirrors are the same mirror: same name, same url.
pub open spec fn same_mirror(a: MirrorView, b: MirrorView) -> bool {
    a.name == b.name && a.url == b.url
}

/// Whether `list` holds the mirror `m`.
pub open spec fn has_mirror(list: Seq<Mirror>, m: MirrorView) -> bool {
    exists|i: int| 0 <= i < list.len() && same_mirror(#[trigger] list[i]@, m)
}

/// `list` with `m` added at the end unless it is present.
pub open spec fn with_mirror(list: Seq<Mirror>, m: Mirror) -> Seq<Mirror> {
    if has_mirror(list, m@) {
        list
    } else {
        list.push(m)
    }
}

/// `list` with each mirror of `more` added in turn unless it is present by then.
pub open spec fn with_mirrors(list: Seq<Mirror>, more: Seq<Mirror>) -> Seq<Mirror>
    decreases more.len(),
{
    if more.len() == 0 {
        list
    } else {
        with_mirror(with_mirrors(list, more.drop_last()), more.last())
    }
}

impl Config {
    /// Adds the supplied mirror to the config if not already present.
    pub fn add_mirror(&mut self, mirror: Mirror)
        ensures
            final(self).mirrors@ == with_mirror(old(self).mirrors@, mirror),
            final(self).root == old(self).root,
            final(self).config_dir == old(self).config_dir,
            final(self).config_file == old(self).config_file,
            final(self).mirrors_dir == old(self).mirrors_dir,
            final(self).cache_dir == old(self).cache_dir,
            final(self).download_dir == old(self).download_dir,
            final(self).packages_dir == old(self).packages_dir,
            final(self).force == old(self).force,
            final(self).render_bar == old(self).render_bar,
            final(self).download_workers == old(self).download_workers,
            final(self).callbacks == old(self).callbacks,
    {
        let mut i: usize = 0;
        while i < self.mirrors.len()
            invariant
                i <= self.mirrors.len(),
                *self == *old(self),
                forall|j: int| 0 <= j < i ==> !same_mirror(#[trigger] self.mirrors@[j]@, mirror@),
            decreases self.mirrors.len() - i,
        {
            if self.mirrors[i].name == mirror.name && self.mirrors[i].url == mirror.url {
                assert(same_mirror(self.mirrors@[i as int]@, mirror@));
                return ;
            }
            i = i + 1;
        }
        self.mirrors.push(mirror);
    }

    /// Adds the supplied mirrors to the config, each if not already present.
    pub fn add_mirrors(&mut self, mirrors: Vec<Mirror>)
        ensures
            final(self).mirrors@ == with_mirrors(old(self).mirrors@, mirrors@),
            final(self).root == old(self).root,
            final(self).config_dir == old(self).config_dir,
            final(self).config_file == old(self).config_file,
            final(self).mirrors_dir == old(self).mirrors_dir,
            final(self).cache_dir == old(self).cache_dir,
            final(self).download_dir == old(self).download_dir,
            final(self).packages_dir == old(self).packages_dir,
            final(self).force == old(self).force,
            final(self).render_bar == old(self).render_bar,
            final(self).download_workers == old(self).download_workers,
            final(self).callbacks == old(self).callbacks,
    {
        let mut mirrors = mirrors;
        let ghost all = mirrors@;
        let mut rest: Vec<Mirror> = Vec::new();
        // Take the mirrors out from the back, then add them front to back.
        while mirrors.len() > 0
            invariant
                rest@.len() + mirrors@.len() == all.len(),
                forall|j: int| 0 <= j < mirrors@.len() ==> mirrors@[j] == all[j],
                forall|j: int|
                    0 <= j < rest@.len() ==> #[trigger] rest@[j] == all[all.len() - 1 - j],
            decreases mirrors.len(),
        {
            let m = mirrors.pop().unwrap();
            rest.push(m);
        }
        let ghost mut done: int = 0;
        assert(all.take(0) =~= Seq::<Mirror>::empty());
        while rest.len() > 0
            invariant
                0 <= done <= all.len(),
                rest@.len() == all.len() - done,
                forall|j: int|
                    0 <= j < rest@.len() ==> #[trigger] rest@[j] == all[all.len() - 1 - j],
                self.mirrors@ == with_mirrors(old(self).mirrors@, all.take(done)),
                self.root == old(self).root,
                self.config_dir == old(self).config_dir,
                self.config_file == old(self).config_file,
                self.mirrors_dir == old(self).mirrors_dir,
                self.cache_dir == old(self).cache_dir,
                self.download_dir == old(self).download_dir,
                self.packages_dir == old(self).packages_dir,
                self.force == old(self).force,
                self.render_bar == old(self).render_bar,
                self.download_workers == old(self).download_workers,
                self.callbacks == old(self).callbacks,
            decreases rest.len(),
        {
            let m = rest.pop().unwrap();
            proof {
                assert(m == all[done]);
                assert(all.take(done + 1).drop_last() =~= all.take(done));
                assert(all.take(done + 1).last() == m);
            }
            self.add_mirror(m);
            proof {
                done = done + 1;
            }
        }
        assert(all.take(done) =~= all);
    }
}

} // verus!
