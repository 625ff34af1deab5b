//! Mirrors: remote catalogs of packages that can be fetched.
use vstd::prelude::*;
use vstd::string::StringExecFns;
use crate::config::dirs::mirrors_dir_path;
use crate::config::Config;
use crate::error::{LError, LErrorClass, LErrorView};
use crate::package::{PackagePool, PackageRef, PackageVariant, PackageView, RemotePackage};
use crate::util::search::{first_index, lemma_first_index, lemma_first_index_is, lemma_first_index_none};
use crate::util::text::{join_path, path_join, same_text};

verus! {

/// A mirror holding a package list.
#[derive(Debug)]
pub struct Mirror {
    /// The name for the mirror.
    pub name: String,
    /// The url to fetch the package list from.
    pub url: String,
    /// The packages provided by this mirror, once it is loaded.
    pub packages: Option<Vec<RemotePackage>>,
}

/// A mirror as plain values.
pub struct MirrorView {
    pub name: Seq<char>,
    pub url: Seq<char>,
    pub packages: Option<Seq<PackageView>>,
}

/// The views of a list of remote packages, in order.
pub open spec fn catalog_view(s: Seq<RemotePackage>) -> Seq<PackageView> {
    Seq::new(s.len(), |i: int| s[i]@)
}

impl View for Mirror {
    type V = MirrorView;

    open spec fn view(&self) -> MirrorView {
        MirrorView {
            name: self.name@,
            url: self.url@,
            packages: match self.packages {
                Some(ps) => Some(catalog_view(ps@)),
                None => None,
            },
        }
    }
}

/// The views of a list of mirrors, in order.
pub open spec fn mirrors_view(s: Seq<Mirror>) -> Seq<MirrorView> {
    Seq::new(s.len(), |i: int| s[i]@)
}

/// Whether `i` is the place of the first package of `ps` named `name`.
pub open spec fn is_first_named(ps: Seq<PackageView>, name: Seq<char>, i: int) -> bool {
    &&& 0 <= i < ps.len()
    &&& ps[i].name == name
    &&& forall|j: int| 0 <= j < i ==> (#[trigger] ps[j]).name != name
}

/// Whether `ps` holds a package named `name`.
pub open spec fn has_named(ps: Seq<PackageView>, name: Seq<char>) -> bool {
    exists|i: int| 0 <= i < ps.len() && (#[trigger] ps[i]).name == name
}

/// The file of a mirror: `<mirrors_dir>/<name>.json`.
pub open spec fn mirror_path(m: MirrorView, c: Config) -> Seq<char> {
    join_path(mirrors_dir_path(c), m.name + ".json"@)
}

/// The error for a mirror that has not been loaded.
pub open spec fn not_loaded_error(m: MirrorView) -> LErrorView {
    LErrorView {
        class: LErrorClass::MirrorNotLoaded,
        messages: seq!["Mirror "@ + m.name + " ("@ + m.url + ")"@],
    }
}

/// The error for a package that a mirror does not have.
pub open spec fn not_in_mirror_error(m: MirrorView, name: Seq<char>) -> LErrorView {
    LErrorView {
        class: LErrorClass::PackageNotFound,
        messages: seq!["Package "@ + name + " not found in mirror "@ + m.name],
    }
}

/// The error for a catalog that could not be read as a list of packages.
pub open spec fn load_error(m: MirrorView, reason: Seq<char>) -> LErrorView {
    LErrorView {
        class: LErrorClass::JSON,
        messages: seq!["When loading mirror "@ + m.name + ": "@ + reason],
    }
}

impl Mirror {
    /// Creates a new mirror that is not loaded yet.
    pub fn new(name: &str, url: &str) -> (r: Mirror)
        ensures
            r@ == (MirrorView { name: name@, url: url@, packages: None }),
    {
        Mirror { name: String::from_str(name), url: String::from_str(url), packages: None }
    }

    /// Returns the path the mirror should be stored in.
    pub fn get_path(&self, config: &Config) -> (r: String)
        ensures
            r@ == mirror_path(self@, *config),
    {
        let dir = config.get_mirrors_dir();
        let mut file = self.name.clone();
        file.append(".json");
        path_join(dir.as_str(), file.as_str())
    }

    /// Takes in the catalog that was read from the mirror's file: a list of
    /// packages on success, or the reason why it could not be read. A failure
    /// leaves the mirror as it was.
    pub fn load(&mut self, parsed: Result<Vec<RemotePackage>, String>) -> (r: Result<(), LError>)
        ensures
            final(self)@.name == old(self)@.name,
            final(self)@.url == old(self)@.url,
            match parsed {
                Ok(ps) => r is Ok && final(self)@.packages == Some(catalog_view(ps@)),
                Err(reason) => r is Err && r->Err_0@ == load_error(old(self)@, reason@)
                    && final(self)@.packages == old(self)@.packages,
            },
    {
        match parsed {
            Ok(ps) => {
                self.packages = Some(ps);
                Ok(())
            },
            Err(reason) => {
                let mut text = String::from_str("When loading mirror ");
                text.append(self.name.as_str());
                text.append(": ");
                text.append(reason.as_str());
                Err(LError::new(LErrorClass::JSON, text.as_str()))
            },
        }
    }

    /// Returns the packages or the error that the mirror is not loaded.
    pub fn get_packages(&self) -> (r: Result<&Vec<RemotePackage>, LError>)
        ensures
            match self@.packages {
                Some(ps) => r is Ok && catalog_view(r->Ok_0@) == ps && self.packages == Some(
                    *r->Ok_0,
                ),
                None => r is Err && r->Err_0@ == not_loaded_error(self@),
            },
    {
        match &self.packages {
            Some(p) => Ok(p),
            None => {
                let mut text = String::from_str("Mirror ");
                text.append(self.name.as_str());
                text.append(" (");
                text.append(self.url.as_str());
                text.append(")");
                Err(LError::new(LErrorClass::MirrorNotLoaded, text.as_str()))
            },
        }
    }

    /// Looks a package up by name: the first one of that name in the catalog,
    /// `MirrorNotLoaded` for a mirror that is not loaded, `PackageNotFound`
    /// where the catalog has none of that name.
    pub fn find_package(&self, name: &str) -> (r: Result<&RemotePackage, LError>)
        ensures
            match self@.packages {
                None => r is Err && r->Err_0@ == not_loaded_error(self@),
                Some(ps) => if has_named(ps, name@) {
                    r is Ok && exists|i: int|
                        is_first_named(ps, name@, i) && r->Ok_0@ == ps[i]
                            && *r->Ok_0 == #[trigger] self.packages->Some_0@[i]
                } else {
                    r is Err && r->Err_0@ == not_in_mirror_error(self@, name@)
                },
            },
    {
        let packages = self.get_packages()?;
        let mut i: usize = 0;
        while i < packages.len()
            invariant
                i <= packages.len(),
                self.packages == Some(*packages),
                forall|j: int| 0 <= j < i ==> packages@[j]@.name != name@,
            decreases packages.len() - i,
        {
            if same_text(packages[i].name.as_str(), name) {
                proof {
                    let ps = catalog_view(packages@);
                    assert(ps[i as int].name == name@);
                    assert(is_first_named(ps, name@, i as int));
                }
                return Ok(&packages[i]);
            }
            i = i + 1;
        }
        proof {
            let ps = catalog_view(packages@);
            assert(!has_named(ps, name@)) by {
                if has_named(ps, name@) {
                    let k = choose|k: int| 0 <= k < ps.len() && (#[trigger] ps[k]).name == name@;
                    assert(packages@[k]@.name != name@);
                }
            }
        }
        let mut text = String::from_str("Package ");
        text.append(name);
        text.append(" not found in mirror ");
        text.append(self.name.as_str());
        Err(LError::new(LErrorClass::PackageNotFound, text.as_str()))
    }
}

/// Whether the search for `name` ends at the mirror `m`: it is not loaded, or
/// it has a package of that name.
pub open spec fn mirror_answers(m: MirrorView, name: Seq<char>) -> bool {
    match m.packages {
        None => true,
        Some(ps) => has_named(ps, name),
    }
}

/// For each mirror, whether the search for `name` ends there.
pub open spec fn answers(ms: Seq<MirrorView>, name: Seq<char>) -> Seq<bool> {
    Seq::new(ms.len(), |i: int| mirror_answers(ms[i], name))
}

/// The names of a list of packages, in order.
pub open spec fn package_names(ps: Seq<PackageView>) -> Seq<Seq<char>> {
    Seq::new(ps.len(), |i: int| ps[i].name)
}

/// The error for a package that no mirror has.
pub open spec fn not_found_error(name: Seq<char>) -> LErrorView {
    LErrorView {
        class: LErrorClass::PackageNotFound,
        messages: seq!["Package '"@ + name + "' has not been found"@],
    }
}

/// What looking `name` up in the mirrors, in the order given, comes to: the
/// first mirror that is not loaded or has the package decides.
pub enum Lookup {
    /// No mirror has the package.
    Missing,
    /// The mirror at this place is not loaded.
    NotLoaded(int),
    /// The mirror at the first place has the package at the second.
    Found(int, int),
}

/// The outcome of looking `name` up in `ms`.
pub open spec fn lookup(ms: Seq<MirrorView>, name: Seq<char>) -> Lookup {
    let k = first_index(answers(ms, name), true);
    if k >= ms.len() {
        Lookup::Missing
    } else {
        match ms[k].packages {
            None => Lookup::NotLoaded(k),
            Some(ps) => Lookup::Found(k, first_index(package_names(ps), name)),
        }
    }
}

/// Where the search for `name` finds a package, that package stands in a
/// loaded mirror and has the name.
pub proof fn lemma_lookup_found(ms: Seq<MirrorView>, name: Seq<char>)
    requires
        lookup(ms, name) is Found,
    ensures
        0 <= lookup(ms, name)->Found_0 < ms.len(),
        ms[lookup(ms, name)->Found_0].packages is Some,
        0 <= lookup(ms, name)->Found_1 < ms[lookup(ms, name)->Found_0].packages->Some_0.len(),
        ms[lookup(ms, name)->Found_0].packages->Some_0[lookup(ms, name)->Found_1].name == name,
{
    lemma_first_index(answers(ms, name), true);
    let k = lookup(ms, name)->Found_0;
    assert(answers(ms, name)[k]);
    let ps = ms[k].packages->Some_0;
    assert(has_named(ps, name));
    let i = choose|i: int| 0 <= i < ps.len() && (#[trigger] ps[i]).name == name;
    assert(package_names(ps)[i] == name);
    lemma_first_index(package_names(ps), name);
}

/// Builds the error for a package that no mirror has.
pub fn not_found(name: &str) -> (r: LError)
    ensures
        r@ == not_found_error(name@),
{
    let mut text = String::from_str("Package '");
    text.append(name);
    text.append("' has not been found");
    LError::new(LErrorClass::PackageNotFound, text.as_str())
}

/// Looks `name` up in the mirrors in the order given: the first package of
/// that name in the first mirror that has one. A mirror that is not loaded
/// ends the search with `MirrorNotLoaded`; a name that no mirror has is
/// `PackageNotFound`.
pub fn find_first<'a>(name: &str, mirrors: &'a Vec<Mirror>) -> (r: Result<&'a RemotePackage, LError>)
    ensures
        match lookup(mirrors_view(mirrors@), name@) {
            Lookup::Missing => r is Err && r->Err_0@ == not_found_error(name@),
            Lookup::NotLoaded(k) => r is Err && 0 <= k < mirrors@.len() && mirrors@[k]@.packages is None
                && r->Err_0@ == not_loaded_error(mirrors@[k]@),
            Lookup::Found(k, i) => r is Ok && 0 <= k < mirrors@.len() && mirrors@[k]@.packages is Some
                && 0 <= i < mirrors@[k]@.packages->Some_0.len() && r->Ok_0@
                == mirrors@[k]@.packages->Some_0[i] && r->Ok_0@.name == name@,
        },
{
    let ghost ms = mirrors_view(mirrors@);
    let mut k: usize = 0;
    while k < mirrors.len()
        invariant
            k <= mirrors.len(),
            ms == mirrors_view(mirrors@),
            forall|j: int| 0 <= j < k ==> !(#[trigger] answers(ms, name@)[j]),
        decreases mirrors.len() - k,
    {
        match mirrors[k].find_package(name) {
            Ok(found) => {
                proof {
                    lemma_first_index_is(answers(ms, name@), true, k as int);
                    let ps = mirrors@[k as int]@.packages->Some_0;
                    let i = choose|i: int|
                        is_first_named(ps, name@, i) && found@ == ps[i] && *found
                            == #[trigger] mirrors@[k as int].packages->Some_0@[i];
                    lemma_first_index_is(package_names(ps), name@, i);
                }
                return Ok(found);
            },
            Err(e) => {
                if mirrors[k].packages.is_none() {
                    proof {
                        lemma_first_index_is(answers(ms, name@), true, k as int);
                    }
                    return Err(e);
                }
            },
        }
        k = k + 1;
    }
    proof {
        lemma_first_index_none(answers(ms, name@), true);
    }
    Err(not_found(name))
}

/// Looks `name` up in the mirrors in the order given and makes a fresh handle
/// in `pool` for the first hit: a remote package that no other handle refers
/// to. A mirror that is not loaded ends the search with `MirrorNotLoaded`; a
/// name that no mirror has is `PackageNotFound`. The plan is not changed.
pub fn resolve_package(name: &str, mirrors: &Vec<Mirror>, pool: &mut PackagePool) -> (r: Result<
    PackageRef,
    LError,
>)
    ensures
        final(pool)@.order == old(pool)@.order,
        final(pool)@.cyclic == old(pool)@.cyclic,
        match lookup(mirrors_view(mirrors@), name@) {
            Lookup::Missing => r is Err && r->Err_0@ == not_found_error(name@) && final(pool)@
                == old(pool)@,
            Lookup::NotLoaded(k) => r is Err && r->Err_0@ == not_loaded_error(mirrors@[k]@)
                && final(pool)@ == old(pool)@,
            Lookup::Found(k, i) => r is Ok && r->Ok_0 == old(pool)@.packages.len()
                && 0 <= i < mirrors@[k]@.packages->Some_0.len() && final(pool)@.packages == old(
                pool,
            )@.packages.push(mirrors@[k]@.packages->Some_0[i]) && mirrors@[k]@.packages->Some_0[i].name
                == name@,
        },
{
    match find_first(name, mirrors) {
        Ok(found) => {
            let copy = found.duplicate();
            let h = pool.add(PackageVariant::Remote(copy));
            Ok(h)
        },
        Err(e) => Err(e),
    }
}

/// What reading `body` as a JSON document and writing out its member `key`
/// comes to: the text of the member, which is `null` where the document has no
/// such member, or the reason why `body` is no JSON document.
pub uninterp spec fn json_member(body: Seq<u8>, key: Seq<char>) -> Result<Seq<char>, Seq<char>>;

/// Parses `body` with `serde_json::from_slice` into a `serde_json::Value`,
/// takes the member `key` by indexing, which never fails, and writes it out
/// with `to_string`. A parse error is handed back as its text. The contract
/// names the outcome; it depends on the two arguments alone.
#[verifier::external_body]
fn json_member_text(body: &[u8], key: &str) -> (r: Result<String, String>)
    ensures
        match json_member(body@, key@) {
            Ok(text) => r is Ok && r->Ok_0@ == text,
            Err(reason) => r is Err && r->Err_0@ == reason,
        },
{
    match serde_json::from_slice::<serde_json::Value>(body) {
        Ok(document) => Ok(document[key].to_string()),
        Err(e) => Err(e.to_string()),
    }
}

/// A mirror file to write: the catalog of a mirror as it is kept on disk.
#[derive(Debug)]
pub struct MirrorFile {
    pub path: String,
    pub content: String,
}

/// The member of a mirror's answer that holds the catalog.
pub open spec fn payload_key() -> Seq<char> {
    "payload"@
}

/// The error for an answer that is no JSON document.
pub open spec fn json_error(reason: Seq<char>) -> LErrorView {
    LErrorView { class: LErrorClass::JSON, messages: seq![reason] }
}

/// What the local copy of a mirror becomes for a given answer: the file
/// `<mirrors_dir>/<name>.json` with the `payload` member of the answer, not
/// the answer as a whole.
pub fn payload_file(path: String, extracted: Result<String, String>) -> (r: Result<MirrorFile, LError>)
    ensures
        match extracted {
            Ok(text) => r is Ok && r->Ok_0.path@ == path@ && r->Ok_0.content@ == text@,
            Err(reason) => r is Err && r->Err_0@ == json_error(reason@),
        },
{
    match extracted {
        Ok(content) => Ok(MirrorFile { path, content }),
        Err(reason) => Err(LError::new(LErrorClass::JSON, reason.as_str())),
    }
}

impl Mirror {
    /// Updates the local copy of the mirror's package list from the answer
    /// that the mirror gave: says which file to write with what. The stored
    /// file is the `payload` member of the answer.
    pub fn update(&self, config: &Config, body: &[u8]) -> (r: Result<MirrorFile, LError>)
        ensures
            match json_member(body@, payload_key()) {
                Ok(text) => r is Ok && r->Ok_0.path@ == mirror_path(self@, *config)
                    && r->Ok_0.content@ == text,
                Err(reason) => r is Err && r->Err_0@ == json_error(reason),
            },
    {
        let extracted = json_member_text(body, "payload");
        payload_file(self.get_path(config), extracted)
    }
}

} // verus!
