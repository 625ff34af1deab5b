use leaf::error::{IoErrorKind, LErrorClass};
use leaf::util::fs::{
    copy_decision, copy_recursive, duplicate_forest, index, CopyAction, CopyStep, FSEntry, FsNode,
};
use leaf::util::hash::{hash_bytes, hash_str};

fn sample_tree() -> Vec<FsNode> {
    vec![
        FsNode::Directory {
            name: "usr".to_string(),
            entries: vec![
                FsNode::Directory {
                    name: "bin".to_string(),
                    entries: vec![FsNode::File { name: "tool".to_string(), content: b"abc".to_vec() }],
                },
                FsNode::Symlink { name: "sbin".to_string(), target: "a".to_string() },
            ],
        },
        FsNode::File { name: "README".to_string(), content: Vec::new() },
    ]
}

fn shape(entries: &Vec<FSEntry>, prefix: &str, out: &mut Vec<(String, Option<String>)>) {
    for e in entries {
        let path = format!("{}/{}", prefix, e.name);
        out.push((path.clone(), e.hash.clone()));
        shape(&e.children, &path, out);
    }
}

#[test]
fn index_hashes_files_links_and_leaves_directories_bare() {
    let forest = index(&sample_tree());
    let mut listing = Vec::new();
    shape(&forest, "", &mut listing);
    assert_eq!(
        listing,
        vec![
            ("/usr".to_string(), None),
            ("/usr/bin".to_string(), None),
            ("/usr/bin/tool".to_string(), Some("900150983cd24fb0d6963f7d28e17f72".to_string())),
            ("/usr/sbin".to_string(), Some("0cc175b9c0f1b6a831c399e269772661".to_string())),
            ("/README".to_string(), Some("d41d8cd98f00b204e9800998ecf8427e".to_string())),
        ]
    );
}

#[test]
fn index_of_an_empty_directory_is_empty() {
    assert!(index(&Vec::new()).is_empty());
}

#[test]
fn link_hash_is_the_hash_of_the_target_path() {
    let forest = index(&vec![FsNode::Symlink { name: "l".to_string(), target: "../lib/x".to_string() }]);
    assert_eq!(forest[0].hash, Some(hash_str("../lib/x")));
    assert!(forest[0].children.is_empty());
    let forest = index(&vec![FsNode::File { name: "f".to_string(), content: vec![1, 2, 3] }]);
    assert_eq!(forest[0].hash, Some(hash_bytes(&[1, 2, 3])));
}

#[test]
fn entry_index_fills_directories_only() {
    let mut dir = FSEntry { name: "d".to_string(), hash: None, children: Vec::new() };
    dir.index(&sample_tree());
    assert_eq!(dir.children.len(), 2);
    assert_eq!(dir.children[0].name, "usr");
    let mut file = FSEntry { name: "f".to_string(), hash: Some("00".to_string()), children: Vec::new() };
    file.index(&sample_tree());
    assert!(file.children.is_empty());
    assert_eq!(file.hash, Some("00".to_string()));
}

#[test]
fn print_draws_one_line_per_entry() {
    let forest = index(&sample_tree());
    let mut text = String::from("tree:");
    forest[0].print(1, &mut text);
    let expected = format!(
        "tree:\n |_ usr/\n | |_ bin/\n{:.<50}{}\n{:.<50}{}",
        " | | |_ tool", "900150983cd24fb0d6963f7d28e17f72", " | |_ sbin", "0cc175b9c0f1b6a831c399e269772661"
    );
    assert_eq!(text, expected);
}

#[test]
fn print_at_depth_zero_has_no_indent() {
    let entry = FSEntry { name: "f".to_string(), hash: Some("h".to_string()), children: Vec::new() };
    let mut text = String::new();
    entry.print(0, &mut text);
    assert_eq!(text, format!("\n_ f{}h", ".".repeat(47)));
}

fn steps_text(steps: &Vec<CopyStep>) -> Vec<String> {
    steps
        .iter()
        .map(|s| match s {
            CopyStep::Directory { src, dest } => format!("dir {} -> {}", src, dest),
            CopyStep::File { src, dest } => format!("file {} -> {}", src, dest),
        })
        .collect()
}

#[test]
fn copy_plan_is_depth_first_with_entries_before_children() {
    let forest = index(&sample_tree());
    let mut steps = Vec::new();
    copy_recursive("/pkg/data", "/", &forest, &mut steps);
    assert_eq!(
        steps_text(&steps),
        vec![
            "dir /pkg/data/usr -> /usr",
            "dir /pkg/data/usr/bin -> /usr/bin",
            "file /pkg/data/usr/bin/tool -> /usr/bin/tool",
            "file /pkg/data/usr/sbin -> /usr/sbin",
            "file /pkg/data/README -> /README",
        ]
    );
}

#[test]
fn copy_plan_appends_to_what_is_there() {
    let forest = index(&vec![FsNode::File { name: "x".to_string(), content: Vec::new() }]);
    let mut steps = vec![CopyStep::Directory { src: "a".to_string(), dest: "b".to_string() }];
    copy_recursive("s", "d", &forest, &mut steps);
    assert_eq!(steps_text(&steps), vec!["dir a -> b", "file s/x -> d/x"]);
    let mut none = Vec::new();
    copy_recursive("s", "d", &Vec::new(), &mut none);
    assert!(none.is_empty());
}

#[test]
fn copy_decisions_for_directories() {
    let step = CopyStep::Directory { src: "s".to_string(), dest: "d".to_string() };
    assert_eq!(copy_decision(&step, false, false, false).unwrap(), CopyAction::CreateDirectory);
    assert_eq!(copy_decision(&step, true, false, false).unwrap(), CopyAction::KeepDirectory);
    assert_eq!(copy_decision(&step, true, true, true).unwrap(), CopyAction::KeepDirectory);
}

#[test]
fn copy_decisions_for_files_and_links() {
    let step = CopyStep::File { src: "s".to_string(), dest: "/root/etc/conf".to_string() };
    assert_eq!(copy_decision(&step, false, false, false).unwrap(), CopyAction::PlaceFile { replace: false });
    assert_eq!(copy_decision(&step, false, false, true).unwrap(), CopyAction::PlaceLink { replace: false });
    assert_eq!(copy_decision(&step, true, true, false).unwrap(), CopyAction::PlaceFile { replace: true });
    assert_eq!(copy_decision(&step, true, true, true).unwrap(), CopyAction::PlaceLink { replace: true });
}

#[test]
fn existing_file_without_permission_is_already_exists() {
    let step = CopyStep::File { src: "s".to_string(), dest: "/root/etc/conf".to_string() };
    let e = copy_decision(&step, true, false, false).unwrap_err();
    assert_eq!(e.class, LErrorClass::IO(IoErrorKind::AlreadyExists));
    assert_eq!(e.messages, vec!["/root/etc/conf".to_string()]);
    let e = copy_decision(&step, true, false, true).unwrap_err();
    assert_eq!(e.class, LErrorClass::IO(IoErrorKind::AlreadyExists));
}

#[test]
fn duplicates_are_deep() {
    let forest = index(&sample_tree());
    let copy = duplicate_forest(&forest);
    let mut a = Vec::new();
    let mut b = Vec::new();
    shape(&forest, "", &mut a);
    shape(&copy, "", &mut b);
    assert_eq!(a, b);
    let one = forest[0].duplicate();
    assert_eq!(one.name, "usr");
    assert_eq!(one.children.len(), 2);
}

#[test]
fn reindexing_a_copied_tree_gives_the_same_entries() {
    // What the plan writes is the tree itself below another root.
    let tree = sample_tree();
    let first = index(&tree);
    let mut steps = Vec::new();
    copy_recursive("/data", "/dest", &first, &mut steps);
    let second = index(&tree);
    let mut a = Vec::new();
    let mut b = Vec::new();
    shape(&first, "/dest", &mut a);
    shape(&second, "/dest", &mut b);
    assert_eq!(a, b);
    let written: Vec<String> = steps
        .iter()
        .map(|s| match s {
            CopyStep::Directory { dest, .. } => dest.clone(),
            CopyStep::File { dest, .. } => dest.clone(),
        })
        .collect();
    let listed: Vec<String> = a.iter().map(|(p, _)| p.clone()).collect();
    assert_eq!(written, listed);
}
