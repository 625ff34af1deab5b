//! Filesystem trees: the entries that a package owns, how a directory is
//! indexed into them, and the plan by which they are copied into a root.
use vstd::prelude::*;
use vstd::string::StringExecFns;
use vstd::utf8::encode_utf8;
use crate::error::{IoErrorKind, LError, LErrorClass};
use crate::util::hash::{digest_text, hash_bytes, hash_str};
use crate::util::text::{join_path, pad_right, pad_text, path_join, repeat, repeat_text};

verus! {

/// Represents a filesystem entry stored in the database.
#[derive(Debug)]
pub struct FSEntry {
    /// The name of the entry without its path.
    pub name: String,
    /// The hash for the file, `None` if directory.
    pub hash: Option<String>,
    /// If this is a directory, the children are stored here.
    pub children: Vec<FSEntry>,
}

/// An entry as plain values.
pub struct EntryView {
    pub name: Seq<char>,
    pub hash: Option<Seq<char>>,
    pub children: Seq<EntryView>,
}

/// The view of an optional text.
pub open spec fn text_option(t: Option<String>) -> Option<Seq<char>> {
    match t {
        Some(s) => Some(s@),
        None => None,
    }
}

/// The view of an entry: its name, its hash and the views of its children.
pub open spec fn entry_view(e: FSEntry) -> EntryView
    decreases e,
{
    EntryView {
        name: e.name@,
        hash: text_option(e.hash),
        children: Seq::new(
            e.children@.len(),
            |i: int|
                if 0 <= i < e.children@.len() {
                    entry_view(e.children@[i])
                } else {
                    arbitrary()
                },
        ),
    }
}

impl View for FSEntry {
    type V = EntryView;

    open spec fn view(&self) -> EntryView {
        entry_view(*self)
    }
}

/// The views of a list of entries, in order.
pub open spec fn forest_view(s: Seq<FSEntry>) -> Seq<EntryView> {
    Seq::new(s.len(), |i: int| s[i]@)
}

/// The children of an entry's view are the views of its children.
pub proof fn lemma_children_view(e: FSEntry)
    ensures
        e@.children == forest_view(e.children@),
{
    assert(e@.children.len() == e.children@.len());
    assert forall|i: int| 0 <= i < e.children@.len() implies e@.children[i] == forest_view(
        e.children@,
    )[i] by {}
    assert(e@.children =~= forest_view(e.children@));
}

/// One level deeper, as far as the machine can count.
pub open spec fn deeper(depth: nat) -> nat {
    if depth < usize::MAX {
        depth + 1
    } else {
        depth
    }
}

/// The line that shows one entry at `depth`: a file with its hash after a
/// dotted column of 50 characters, a directory with a trailing slash.
pub open spec fn entry_line(e: EntryView, depth: nat) -> Seq<char> {
    let head = repeat_text(" |"@, depth) + "_ "@ + e.name;
    match e.hash {
        Some(h) => "\n"@ + pad_text(head, "."@, 50) + h,
        None => "\n"@ + head + "/"@,
    }
}

/// The text of a whole tree: the entry's line, then its children one level deeper.
pub open spec fn tree_text(e: EntryView, depth: nat) -> Seq<char>
    decreases e,
{
    entry_line(e, depth) + forest_text(e.children, deeper(depth))
}

/// The text of the trees of `s`, one after the other.
pub open spec fn forest_text(s: Seq<EntryView>, depth: nat) -> Seq<char>
    decreases s,
{
    if s.len() == 0 {
        Seq::empty()
    } else {
        forest_text(s.drop_last(), depth) + tree_text(s.last(), depth)
    }
}

impl FSEntry {
    /// Replaces the children of a directory entry by the index of `directory`;
    /// an entry with a hash is left as it is.
    pub fn index(&mut self, directory: &Vec<FsNode>)
        ensures
            final(self)@.name == old(self)@.name,
            final(self)@.hash == old(self)@.hash,
            old(self)@.hash is None ==> final(self)@.children == index_forest(directory@),
            old(self)@.hash is Some ==> final(self)@.children == old(self)@.children,
    {
        proof {
            lemma_children_view(*self);
        }
        if self.hash.is_none() {
            self.children = index(directory);
        }
        proof {
            lemma_children_view(*self);
        }
    }

    /// Appends the tree of this entry to `string`, one line per entry.
    pub fn print(&self, depth: usize, string: &mut String)
        ensures
            final(string)@ == old(string)@ + tree_text(self@, depth as nat),
        decreases self,
    {
        let indent = repeat(" |", depth);
        let mut head = indent;
        head.append("_ ");
        head.append(self.name.as_str());
        string.append("\n");
        match &self.hash {
            Some(hash) => {
                let padded = pad_right(head.as_str(), ".", 50);
                string.append(padded.as_str());
                string.append(hash.as_str());
            },
            None => {
                string.append(head.as_str());
                string.append("/");
            },
        }
        assert(string@ =~= old(string)@ + entry_line(self@, depth as nat));
        let next: usize = if depth < usize::MAX {
            depth + 1
        } else {
            depth
        };
        proof {
            lemma_children_view(*self);
        }
        let mut i: usize = 0;
        while i < self.children.len()
            invariant
                i <= self.children.len(),
                next == deeper(depth as nat),
                self@.children == forest_view(self.children@),
                string@ == old(string)@ + entry_line(self@, depth as nat) + forest_text(
                    self@.children.take(i as int),
                    next as nat,
                ),
            decreases self.children.len() - i,
        {
            let ghost before = string@;
            self.children[i].print(next, string);
            proof {
                let s = self@.children.take(i + 1);
                assert(s.drop_last() =~= self@.children.take(i as int));
                assert(s.last() == self.children@[i as int]@);
                assert(string@ =~= old(string)@ + entry_line(self@, depth as nat) + forest_text(
                    s,
                    next as nat,
                ));
            }
            i = i + 1;
        }
        assert(self@.children.take(i as int) =~= self@.children);
    }

    /// A copy of the entry with all that is below it.
    pub fn duplicate(&self) -> (r: FSEntry)
        ensures
            r@ == self@,
        decreases self,
    {
        let hash = match &self.hash {
            Some(h) => Some(h.clone()),
            None => None,
        };
        let mut children: Vec<FSEntry> = Vec::new();
        let mut i: usize = 0;
        while i < self.children.len()
            invariant
                i <= self.children.len(),
                children@.len() == i,
                forall|j: int| 0 <= j < i ==> (#[trigger] children@[j])@ == self.children@[j]@,
            decreases self.children.len() - i,
        {
            children.push(self.children[i].duplicate());
            i = i + 1;
        }
        let r = FSEntry { name: self.name.clone(), hash, children };
        proof {
            lemma_children_view(r);
            lemma_children_view(*self);
            assert(r@.children =~= self@.children);
        }
        r
    }
}

/// A copy of a list of entries with all that is below them.
pub fn duplicate_forest(entries: &Vec<FSEntry>) -> (r: Vec<FSEntry>)
    ensures
        forest_view(r@) == forest_view(entries@),
{
    let mut out: Vec<FSEntry> = Vec::new();
    let mut i: usize = 0;
    while i < entries.len()
        invariant
            i <= entries.len(),
            out@.len() == i,
            forall|j: int| 0 <= j < i ==> (#[trigger] out@[j])@ == entries@[j]@,
        decreases entries.len() - i,
    {
        out.push(entries[i].duplicate());
        i = i + 1;
    }
    assert(forest_view(out@) =~= forest_view(entries@));
    out
}

/// What was found at one place of a directory tree.
#[derive(Debug)]
pub enum FsNode {
    /// A regular file with its content.
    File { name: String, content: Vec<u8> },
    /// A symbolic link with the path it points to.
    Symlink { name: String, target: String },
    /// A directory with what it holds.
    Directory { name: String, entries: Vec<FsNode> },
}

/// The entry that stands for a node: a file with the hash of its content, a
/// link with the hash of its target path, a directory with the index of what
/// it holds and no hash.
pub open spec fn index_node(n: FsNode) -> EntryView
    decreases n,
{
    match n {
        FsNode::File { name, content } => EntryView {
            name: name@,
            hash: Some(digest_text(content@)),
            children: Seq::empty(),
        },
        FsNode::Symlink { name, target } => EntryView {
            name: name@,
            hash: Some(digest_text(encode_utf8(target@))),
            children: Seq::empty(),
        },
        FsNode::Directory { name, entries } => EntryView {
            name: name@,
            hash: None,
            children: index_forest(entries@),
        },
    }
}

/// The entries that stand for the nodes of `s`, in the same order.
pub open spec fn index_forest(s: Seq<FsNode>) -> Seq<EntryView>
    decreases s,
{
    if s.len() == 0 {
        Seq::empty()
    } else {
        index_forest(s.drop_last()).push(index_node(s.last()))
    }
}

/// The index has one entry per node, each the index of its node.
pub proof fn lemma_index_forest(s: Seq<FsNode>)
    ensures
        index_forest(s).len() == s.len(),
        forall|i: int| 0 <= i < s.len() ==> #[trigger] index_forest(s)[i] == index_node(s[i]),
    decreases s.len(),
{
    if s.len() > 0 {
        lemma_index_forest(s.drop_last());
    }
}

fn index_one(node: &FsNode) -> (r: FSEntry)
    ensures
        r@ == index_node(*node),
    decreases node,
{
    match node {
        FsNode::File { name, content } => {
            let r = FSEntry {
                name: name.clone(),
                hash: Some(hash_bytes(content.as_slice())),
                children: Vec::new(),
            };
            assert(r@.children =~= Seq::<EntryView>::empty());
            r
        },
        FsNode::Symlink { name, target } => {
            let r = FSEntry {
                name: name.clone(),
                hash: Some(hash_str(target.as_str())),
                children: Vec::new(),
            };
            assert(r@.children =~= Seq::<EntryView>::empty());
            r
        },
        FsNode::Directory { name, entries } => {
            let mut children: Vec<FSEntry> = Vec::new();
            let mut i: usize = 0;
            while i < entries.len()
                invariant
                    i <= entries.len(),
                    children@.len() == i,
                    node is Directory,
                    node->entries == *entries,
                    forall|j: int| 0 <= j < i ==> (#[trigger] children@[j])@ == index_node(entries@[j]),
                decreases entries.len() - i,
            {
                children.push(index_one(&entries[i]));
                i = i + 1;
            }
            let r = FSEntry { name: name.clone(), hash: None, children };
            proof {
                lemma_index_forest(entries@);
                lemma_children_view(r);
                assert(r@.children =~= index_forest(entries@));
            }
            r
        },
    }
}

/// Indexes what a directory holds into a list of entries, in the order given.
pub fn index(directory: &Vec<FsNode>) -> (r: Vec<FSEntry>)
    ensures
        forest_view(r@) == index_forest(directory@),
{
    let mut out: Vec<FSEntry> = Vec::new();
    let mut i: usize = 0;
    while i < directory.len()
        invariant
            i <= directory.len(),
            out@.len() == i,
            forall|j: int| 0 <= j < i ==> (#[trigger] out@[j])@ == index_node(directory@[j]),
        decreases directory.len() - i,
    {
        out.push(index_one(&directory[i]));
        i = i + 1;
    }
    proof {
        lemma_index_forest(directory@);
        assert(forest_view(out@) =~= index_forest(directory@));
    }
    out
}

} // verus!

verus! {

/// One step of copying a tree of entries from a source root to a destination root.
#[derive(Debug)]
pub enum CopyStep {
    /// The directory at `dest` has to exist before what follows.
    Directory { src: String, dest: String },
    /// The file or link at `src` goes to `dest`.
    File { src: String, dest: String },
}

/// A step as plain values.
pub enum CopyStepView {
    Directory { src: Seq<char>, dest: Seq<char> },
    File { src: Seq<char>, dest: Seq<char> },
}

impl View for CopyStep {
    type V = CopyStepView;

    open spec fn view(&self) -> CopyStepView {
        match self {
            CopyStep::Directory { src, dest } => CopyStepView::Directory { src: src@, dest: dest@ },
            CopyStep::File { src, dest } => CopyStepView::File { src: src@, dest: dest@ },
        }
    }
}

/// The views of a list of steps, in order.
pub open spec fn plan_view(s: Seq<CopyStep>) -> Seq<CopyStepView> {
    Seq::new(s.len(), |i: int| s[i]@)
}

/// The steps for one entry, depth first and the entry before what is below it:
/// both paths get the entry's name; a directory is followed by the steps of its
/// children, a file or link is one step.
pub open spec fn plan_tree(e: EntryView, src: Seq<char>, dest: Seq<char>) -> Seq<CopyStepView>
    decreases e,
{
    let s = join_path(src, e.name);
    let d = join_path(dest, e.name);
    if e.hash is None {
        seq![CopyStepView::Directory { src: s, dest: d }] + plan_forest(e.children, s, d)
    } else {
        seq![CopyStepView::File { src: s, dest: d }]
    }
}

/// The steps for a list of entries below the same two roots, in order.
pub open spec fn plan_forest(es: Seq<EntryView>, src: Seq<char>, dest: Seq<char>) -> Seq<
    CopyStepView,
>
    decreases es,
{
    if es.len() == 0 {
        Seq::empty()
    } else {
        plan_forest(es.drop_last(), src, dest) + plan_tree(es.last(), src, dest)
    }
}

/// Appends to `plan` the steps that copy `entries` from below `src` to below
/// `dest`, recursively over all the children.
pub fn copy_recursive(src: &str, dest: &str, entries: &Vec<FSEntry>, plan: &mut Vec<CopyStep>)
    ensures
        plan_view(final(plan)@) == plan_view(old(plan)@) + plan_forest(
            forest_view(entries@),
            src@,
            dest@,
        ),
    decreases entries,
{
    let mut i: usize = 0;
    assert(plan_view(plan@) =~= plan_view(old(plan)@) + plan_forest(
        forest_view(entries@).take(0),
        src@,
        dest@,
    ));
    while i < entries.len()
        invariant
            i <= entries.len(),
            plan_view(plan@) == plan_view(old(plan)@) + plan_forest(
                forest_view(entries@).take(i as int),
                src@,
                dest@,
            ),
        decreases entries.len() - i,
    {
        let entry = &entries[i];
        let s = path_join(src, entry.name.as_str());
        let d = path_join(dest, entry.name.as_str());
        let ghost before = plan@;
        if entry.hash.is_none() {
            plan.push(CopyStep::Directory { src: s.clone(), dest: d.clone() });
            assert(plan_view(plan@) =~= plan_view(before).push(
                CopyStepView::Directory { src: s@, dest: d@ },
            ));
            copy_recursive(s.as_str(), d.as_str(), &entry.children, plan);
            proof {
                lemma_children_view(*entry);
                assert(entry@.hash is None);
                assert(plan_view(plan@) =~= plan_view(before) + plan_tree(entry@, src@, dest@));
            }
        } else {
            plan.push(CopyStep::File { src: s, dest: d });
            assert(plan_view(plan@) =~= plan_view(before).push(
                CopyStepView::File { src: s@, dest: d@ },
            ));
            assert(entry@.hash is Some);
            assert(plan_view(plan@) =~= plan_view(before) + plan_tree(entry@, src@, dest@));
        }
        proof {
            let f = forest_view(entries@).take(i + 1);
            assert(f.drop_last() =~= forest_view(entries@).take(i as int));
            assert(f.last() == entry@);
            assert(plan_view(plan@) =~= plan_view(old(plan)@) + plan_forest(f, src@, dest@));
        }
        i = i + 1;
    }
    assert(forest_view(entries@).take(i as int) =~= forest_view(entries@));
}

/// What to do for one step, once the destination has been looked at.
#[derive(Debug, Clone, Copy, PartialEq, Eq, Structural)]
pub enum CopyAction {
    /// The destination directory is missing: create it.
    CreateDirectory,
    /// The destination directory is there: go on below it.
    KeepDirectory,
    /// Re-create the link at the destination, after removing what is there if `replace`.
    PlaceLink { replace: bool },
    /// Copy the file to the destination, after removing what is there if `replace`.
    PlaceFile { replace: bool },
}

/// What a step asks for. A directory is created where it is missing. A file or
/// link whose destination exists is refused with `AlreadyExists` and the
/// destination's path unless `may_overwrite`; otherwise what is there is
/// replaced. A source that is a link is placed as a link, not as what it points to.
pub open spec fn copy_decision_spec(
    step: CopyStepView,
    dest_exists: bool,
    may_overwrite: bool,
    src_is_link: bool,
) -> Result<CopyAction, crate::error::LErrorView> {
    match step {
        CopyStepView::Directory { .. } => Ok(
            if dest_exists {
                CopyAction::KeepDirectory
            } else {
                CopyAction::CreateDirectory
            },
        ),
        CopyStepView::File { dest, .. } => if dest_exists && !may_overwrite {
            Err(
                crate::error::LErrorView {
                    class: LErrorClass::IO(IoErrorKind::AlreadyExists),
                    messages: seq![dest],
                },
            )
        } else if src_is_link {
            Ok(CopyAction::PlaceLink { replace: dest_exists })
        } else {
            Ok(CopyAction::PlaceFile { replace: dest_exists })
        },
    }
}

/// Decides one step of a copy from what was found on disk: whether the
/// destination exists, what the conflict handler answered for it, and whether
/// the source is a link.
pub fn copy_decision(step: &CopyStep, dest_exists: bool, may_overwrite: bool, src_is_link: bool) -> (r:
    Result<CopyAction, LError>)
    ensures
        match copy_decision_spec(step@, dest_exists, may_overwrite, src_is_link) {
            Ok(a) => r == Ok::<CopyAction, LError>(a),
            Err(e) => r is Err && r->Err_0@ == e,
        },
{
    match step {
        CopyStep::Directory { .. } => {
            if dest_exists {
                Ok(CopyAction::KeepDirectory)
            } else {
                Ok(CopyAction::CreateDirectory)
            }
        },
        CopyStep::File { dest, .. } => {
            if dest_exists && !may_overwrite {
                Err(LError::new(LErrorClass::IO(IoErrorKind::AlreadyExists), dest.as_str()))
            } else if src_is_link {
                Ok(CopyAction::PlaceLink { replace: dest_exists })
            } else {
                Ok(CopyAction::PlaceFile { replace: dest_exists })
            }
        },
    }
}

/// Whether no file or link has entries below it, in the whole tree.
pub open spec fn tree_well_formed(e: EntryView) -> bool
    decreases e,
{
    &&& e.hash is Some ==> e.children.len() == 0
    &&& forall|i: int| 0 <= i < e.children.len() ==> tree_well_formed(#[trigger] e.children[i])
}

/// Whether every tree of `s` is well formed.
pub open spec fn forest_well_formed(s: Seq<EntryView>) -> bool {
    forall|i: int| 0 <= i < s.len() ==> tree_well_formed(#[trigger] s[i])
}

/// One line of a tree written out flat: the path below the root, whether it
/// is a file or link, and its hash.
pub struct FlatEntry {
    pub path: Seq<char>,
    pub is_file: bool,
    pub hash: Option<Seq<char>>,
}

/// A tree written out flat below `prefix`: the entry, then all that is below it.
pub open spec fn flatten_tree(e: EntryView, prefix: Seq<char>) -> Seq<FlatEntry>
    decreases e,
{
    let path = join_path(prefix, e.name);
    seq![FlatEntry { path, is_file: e.hash is Some, hash: e.hash }] + flatten_forest(
        e.children,
        path,
    )
}

/// A list of trees written out flat below `prefix`, in order.
pub open spec fn flatten_forest(s: Seq<EntryView>, prefix: Seq<char>) -> Seq<FlatEntry>
    decreases s,
{
    if s.len() == 0 {
        Seq::empty()
    } else {
        flatten_forest(s.drop_last(), prefix) + flatten_tree(s.last(), prefix)
    }
}

/// Indexing a directory never puts entries below a file or link.
pub proof fn lemma_index_well_formed(s: Seq<FsNode>)
    ensures
        forest_well_formed(index_forest(s)),
    decreases s,
{
    lemma_index_forest(s);
    assert forall|i: int| 0 <= i < s.len() implies tree_well_formed(
        #[trigger] index_forest(s)[i],
    ) by {
        match s[i] {
            FsNode::Directory { name, entries } => {
                lemma_index_well_formed(entries@);
            },
            _ => {},
        }
    }
}

/// Whether the node `n` below `prefix` is, or holds somewhere below it, a
/// regular file at `path` with the given content.
pub open spec fn node_has_file(n: FsNode, prefix: Seq<char>, path: Seq<char>, content: Seq<u8>) -> bool
    decreases n,
{
    match n {
        FsNode::File { name, content: c } => join_path(prefix, name@) == path && c@ == content,
        FsNode::Symlink { .. } => false,
        FsNode::Directory { name, entries } => tree_has_file(
            entries@,
            join_path(prefix, name@),
            path,
            content,
        ),
    }
}

/// Whether the directory listing `s` below `prefix` holds a regular file at
/// `path` with the given content.
pub open spec fn tree_has_file(s: Seq<FsNode>, prefix: Seq<char>, path: Seq<char>, content: Seq<u8>) -> bool
    decreases s,
{
    if s.len() == 0 {
        false
    } else {
        tree_has_file(s.drop_last(), prefix, path, content) || node_has_file(
            s.last(),
            prefix,
            path,
            content,
        )
    }
}

/// The flat entry of a regular file at `path` with the given content.
pub open spec fn file_entry(path: Seq<char>, content: Seq<u8>) -> FlatEntry {
    FlatEntry { path, is_file: true, hash: Some(digest_text(content)) }
}

/// Every regular file of a directory tree shows in the flat listing of the
/// tree's index, at its path and with the hash of its content.
pub proof fn lemma_index_hashes(s: Seq<FsNode>, prefix: Seq<char>, path: Seq<char>, content: Seq<u8>)
    requires
        tree_has_file(s, prefix, path, content),
    ensures
        flatten_forest(index_forest(s), prefix).contains(file_entry(path, content)),
    decreases s, 1int,
{
    let all = flatten_forest(index_forest(s), prefix);
    assert(index_forest(s).drop_last() =~= index_forest(s.drop_last()));
    assert(index_forest(s).last() == index_node(s.last()));
    let before = flatten_forest(index_forest(s.drop_last()), prefix);
    let here = flatten_tree(index_node(s.last()), prefix);
    assert(all == before + here);
    if tree_has_file(s.drop_last(), prefix, path, content) {
        lemma_index_hashes(s.drop_last(), prefix, path, content);
        let k = choose|k: int| 0 <= k < before.len() && before[k] == file_entry(path, content);
        assert(all[k] == file_entry(path, content));
    } else {
        lemma_node_hashes(s.last(), prefix, path, content);
        let k = choose|k: int| 0 <= k < here.len() && here[k] == file_entry(path, content);
        assert(all[before.len() + k] == file_entry(path, content));
    }
}

/// Every regular file in or below a node shows in the flat listing of the
/// node's index, at its path and with the hash of its content.
pub proof fn lemma_node_hashes(n: FsNode, prefix: Seq<char>, path: Seq<char>, content: Seq<u8>)
    requires
        node_has_file(n, prefix, path, content),
    ensures
        flatten_tree(index_node(n), prefix).contains(file_entry(path, content)),
    decreases n, 0int,
{
    let listing = flatten_tree(index_node(n), prefix);
    match n {
        FsNode::File { name, content: c } => {
            assert(listing[0] == file_entry(path, content));
        },
        FsNode::Symlink { .. } => {},
        FsNode::Directory { name, entries } => {
            let below = flatten_forest(index_forest(entries@), join_path(prefix, name@));
            lemma_index_hashes(entries@, join_path(prefix, name@), path, content);
            let k = choose|k: int| 0 <= k < below.len() && below[k] == file_entry(path, content);
            assert(listing[1 + k] == file_entry(path, content));
        },
    }
}

/// What a copy step writes: the destination path, and whether it is a file
/// or link.
pub open spec fn step_target(step: CopyStepView) -> (Seq<char>, bool) {
    match step {
        CopyStepView::Directory { dest, .. } => (dest, false),
        CopyStepView::File { dest, .. } => (dest, true),
    }
}

/// What the steps of a plan write, in order.
pub open spec fn plan_targets(plan: Seq<CopyStepView>) -> Seq<(Seq<char>, bool)> {
    Seq::new(plan.len(), |k: int| step_target(plan[k]))
}

/// What a flat listing lists, in order: each path, and whether it is a file
/// or link.
pub open spec fn flat_targets(flat: Seq<FlatEntry>) -> Seq<(Seq<char>, bool)> {
    Seq::new(flat.len(), |k: int| (flat[k].path, flat[k].is_file))
}

/// The plan that copies well-formed trees to a root writes exactly the paths
/// of their flat listing below that root, in the same order, directories as
/// directories and files as files.
pub proof fn lemma_plan_targets(es: Seq<EntryView>, src: Seq<char>, dest: Seq<char>)
    requires
        forest_well_formed(es),
    ensures
        plan_targets(plan_forest(es, src, dest)) == flat_targets(flatten_forest(es, dest)),
    decreases es, 1int,
{
    if es.len() > 0 {
        assert(forest_well_formed(es.drop_last())) by {
            assert forall|i: int| 0 <= i < es.drop_last().len() implies tree_well_formed(
                #[trigger] es.drop_last()[i],
            ) by {
                assert(tree_well_formed(es[i]));
            }
        }
        assert(tree_well_formed(es[es.len() - 1]));
        lemma_plan_targets(es.drop_last(), src, dest);
        lemma_tree_targets(es.last(), src, dest);
        assert(plan_targets(plan_forest(es, src, dest)) =~= plan_targets(
            plan_forest(es.drop_last(), src, dest),
        ) + plan_targets(plan_tree(es.last(), src, dest)));
        assert(flat_targets(flatten_forest(es, dest)) =~= flat_targets(
            flatten_forest(es.drop_last(), dest),
        ) + flat_targets(flatten_tree(es.last(), dest)));
    } else {
        assert(plan_targets(plan_forest(es, src, dest)) =~= flat_targets(
            flatten_forest(es, dest),
        ));
    }
}

/// The plan that copies a well-formed tree writes exactly the paths of its
/// flat listing.
pub proof fn lemma_tree_targets(e: EntryView, src: Seq<char>, dest: Seq<char>)
    requires
        tree_well_formed(e),
    ensures
        plan_targets(plan_tree(e, src, dest)) == flat_targets(flatten_tree(e, dest)),
    decreases e, 0int,
{
    let s = join_path(src, e.name);
    let d = join_path(dest, e.name);
    if e.hash is None {
        assert(forest_well_formed(e.children));
        lemma_plan_targets(e.children, s, d);
        assert(plan_targets(plan_tree(e, src, dest)) =~= seq![(d, false)] + plan_targets(
            plan_forest(e.children, s, d),
        ));
        assert(flat_targets(flatten_tree(e, dest)) =~= seq![(d, false)] + flat_targets(
            flatten_forest(e.children, d),
        ));
    } else {
        assert(e.children.len() == 0);
        assert(flatten_forest(e.children, d) =~= Seq::empty());
        assert(plan_targets(plan_tree(e, src, dest)) =~= seq![(d, true)]);
        assert(flat_targets(flatten_tree(e, dest)) =~= seq![(d, true)]);
    }
}

/// What a copy step reads: the source path, and whether it is a file or
/// link.
pub open spec fn step_source(step: CopyStepView) -> (Seq<char>, bool) {
    match step {
        CopyStepView::Directory { src, .. } => (src, false),
        CopyStepView::File { src, .. } => (src, true),
    }
}

/// What the steps of a plan read, in order.
pub open spec fn plan_sources(plan: Seq<CopyStepView>) -> Seq<(Seq<char>, bool)> {
    Seq::new(plan.len(), |k: int| step_source(plan[k]))
}

/// The hashes of a flat listing, in order.
pub open spec fn flat_hashes(flat: Seq<FlatEntry>) -> Seq<Option<Seq<char>>> {
    Seq::new(flat.len(), |k: int| flat[k].hash)
}

/// The plan that copies well-formed trees from a root reads exactly the
/// paths of their flat listing below that root, in the same order. With what
/// it writes, step by step, this is the listing moved from one root to the other.
pub proof fn lemma_plan_sources(es: Seq<EntryView>, src: Seq<char>, dest: Seq<char>)
    requires
        forest_well_formed(es),
    ensures
        plan_sources(plan_forest(es, src, dest)) == flat_targets(flatten_forest(es, src)),
    decreases es, 1int,
{
    if es.len() > 0 {
        assert(forest_well_formed(es.drop_last())) by {
            assert forall|i: int| 0 <= i < es.drop_last().len() implies tree_well_formed(
                #[trigger] es.drop_last()[i],
            ) by {
                assert(tree_well_formed(es[i]));
            }
        }
        assert(tree_well_formed(es[es.len() - 1]));
        lemma_plan_sources(es.drop_last(), src, dest);
        lemma_tree_sources(es.last(), src, dest);
        assert(plan_sources(plan_forest(es, src, dest)) =~= plan_sources(
            plan_forest(es.drop_last(), src, dest),
        ) + plan_sources(plan_tree(es.last(), src, dest)));
        assert(flat_targets(flatten_forest(es, src)) =~= flat_targets(
            flatten_forest(es.drop_last(), src),
        ) + flat_targets(flatten_tree(es.last(), src)));
    } else {
        assert(plan_sources(plan_forest(es, src, dest)) =~= flat_targets(flatten_forest(es, src)));
    }
}

/// The plan that copies a well-formed tree reads exactly the paths of its
/// flat listing.
pub proof fn lemma_tree_sources(e: EntryView, src: Seq<char>, dest: Seq<char>)
    requires
        tree_well_formed(e),
    ensures
        plan_sources(plan_tree(e, src, dest)) == flat_targets(flatten_tree(e, src)),
    decreases e, 0int,
{
    let s = join_path(src, e.name);
    let d = join_path(dest, e.name);
    if e.hash is None {
        assert(forest_well_formed(e.children));
        lemma_plan_sources(e.children, s, d);
        assert(plan_sources(plan_tree(e, src, dest)) =~= seq![(s, false)] + plan_sources(
            plan_forest(e.children, s, d),
        ));
        assert(flat_targets(flatten_tree(e, src)) =~= seq![(s, false)] + flat_targets(
            flatten_forest(e.children, s),
        ));
    } else {
        assert(e.children.len() == 0);
        assert(flatten_forest(e.children, s) =~= Seq::empty());
        assert(plan_sources(plan_tree(e, src, dest)) =~= seq![(s, true)]);
        assert(flat_targets(flatten_tree(e, src)) =~= seq![(s, true)]);
    }
}

/// The flat listing of trees carries the same hashes in the same order
/// below every root: what is listed below one root with a hash is listed
/// below another root at the same place with the same hash.
pub proof fn lemma_flat_hashes(es: Seq<EntryView>, a: Seq<char>, b: Seq<char>)
    ensures
        flat_hashes(flatten_forest(es, a)) == flat_hashes(flatten_forest(es, b)),
    decreases es, 1int,
{
    if es.len() > 0 {
        lemma_flat_hashes(es.drop_last(), a, b);
        lemma_tree_flat_hashes(es.last(), a, b);
        assert(flat_hashes(flatten_forest(es, a)) =~= flat_hashes(flatten_forest(es.drop_last(), a))
            + flat_hashes(flatten_tree(es.last(), a)));
        assert(flat_hashes(flatten_forest(es, b)) =~= flat_hashes(flatten_forest(es.drop_last(), b))
            + flat_hashes(flatten_tree(es.last(), b)));
    } else {
        assert(flat_hashes(flatten_forest(es, a)) =~= flat_hashes(flatten_forest(es, b)));
    }
}

/// The flat listing of a tree carries the same hashes in the same order
/// below every root.
pub proof fn lemma_tree_flat_hashes(e: EntryView, a: Seq<char>, b: Seq<char>)
    ensures
        flat_hashes(flatten_tree(e, a)) == flat_hashes(flatten_tree(e, b)),
    decreases e, 0int,
{
    let pa = join_path(a, e.name);
    let pb = join_path(b, e.name);
    lemma_flat_hashes(e.children, pa, pb);
    assert(flat_hashes(flatten_tree(e, a)) =~= seq![e.hash] + flat_hashes(flatten_forest(e.children, pa)));
    assert(flat_hashes(flatten_tree(e, b)) =~= seq![e.hash] + flat_hashes(flatten_forest(e.children, pb)));
}

} // verus!
