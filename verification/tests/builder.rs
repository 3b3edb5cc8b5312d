use std::io::{Error, ErrorKind};
use tree2fs_rs::builder::{
    default_skip_root, Failure, FilesystemBuildError, FilesystemBuilder, Step, StepKind,
};
use tree2fs_rs::models::{FileItem, Node};
use tree2fs_rs::models::Tree;
use tree2fs_rs::parser::TreeParser;

fn read(text: &str) -> Tree {
    TreeParser::new(4).build_tree(text).unwrap().0
}

fn step(kind: StepKind, path: &str, comment: &str) -> Step {
    Step { kind, path: path.to_string(), comment: comment.to_string() }
}

fn created(steps: &[Step], kind: StepKind) -> Vec<&str> {
    steps.iter().filter(|s| s.kind == kind).map(|s| s.path.as_str()).collect()
}

const PROJECT: &str = "my_project/\n├── src/\n│   ├── main.rs\n│   └── utils.rs\n└── README.md";

#[test]
fn test_end_to_end_creation() {
    let tree_content = "\nmy_project/\n├── src/\n│   ├── main.rs\n│   └── utils.rs\n└── README.md\n";
    let parser = TreeParser::new(4);
    let (root, root_name_to_skip) = parser.build_tree(tree_content).unwrap();

    let skip_root = root_name_to_skip.is_some();
    let mut builder = FilesystemBuilder::new("output", false, false);
    let steps = builder.steps_to_perform(&root, 0, skip_root);
    builder.build(&root, 0, skip_root, None).unwrap();

    assert!(created(&steps, StepKind::Directory).contains(&"output/src"));
    assert!(created(&steps, StepKind::File).contains(&"output/src/main.rs"));
    assert!(created(&steps, StepKind::File).contains(&"output/src/utils.rs"));
    assert!(created(&steps, StepKind::File).contains(&"output/README.md"));
}

#[test]
fn test_no_skip_root() {
    let tree_content = "\nroot_folder/\n└── file.txt\n";
    let parser = TreeParser::new(4);
    let (root, _root_name_to_skip) = parser.build_tree(tree_content).unwrap();

    let mut builder = FilesystemBuilder::new("output", false, false);
    let steps = builder.steps_to_perform(&root, 0, false);
    builder.build(&root, 0, false, None).unwrap();

    assert!(created(&steps, StepKind::Directory).contains(&"output/root_folder"));
    assert!(created(&steps, StepKind::File).contains(&"output/root_folder/file.txt"));
}

#[test]
fn skipped_root_lands_in_the_base_directory() {
    let tree = read(PROJECT);
    let builder = FilesystemBuilder::new("out/", false, false);
    let steps = builder.plan(&tree, 0, true);
    assert_eq!(
        steps,
        vec![
            step(StepKind::Directory, "out/", ""),
            step(StepKind::Directory, "out/src", ""),
            step(StepKind::ParentDirectory, "out/src", ""),
            step(StepKind::File, "out/src/main.rs", ""),
            step(StepKind::ParentDirectory, "out/src", ""),
            step(StepKind::File, "out/src/utils.rs", ""),
            step(StepKind::ParentDirectory, "out", ""),
            step(StepKind::File, "out/README.md", ""),
        ]
    );
    let below_base: Vec<&str> =
        created(&steps, StepKind::Directory).into_iter().filter(|p| *p != "out/").collect();
    assert_eq!(below_base, vec!["out/src"]);
    assert_eq!(
        created(&steps, StepKind::File),
        vec!["out/src/main.rs", "out/src/utils.rs", "out/README.md"]
    );
}

#[test]
fn counts_are_of_distinct_paths() {
    let tree = read(PROJECT);
    let mut builder = FilesystemBuilder::new("out/", false, false);
    assert_eq!(builder.build(&tree, 0, true, None).unwrap(), (2, 3));
    assert_eq!(builder.get_summary(), (2, 3, 5, false));
    assert_eq!(builder.build(&tree, 0, false, None).unwrap(), (2, 3));
}

#[test]
fn kept_root_is_a_segment_of_every_path() {
    let tree = read(PROJECT);
    let builder = FilesystemBuilder::new("out", false, false);
    let steps = builder.plan(&tree, 0, false);
    assert_eq!(
        created(&steps, StepKind::Directory),
        vec!["out/my_project", "out/my_project/src"]
    );
    assert_eq!(
        created(&steps, StepKind::File),
        vec![
            "out/my_project/src/main.rs",
            "out/my_project/src/utils.rs",
            "out/my_project/README.md",
        ]
    );
    assert_eq!(
        created(&steps, StepKind::ParentDirectory),
        vec!["out/my_project/src", "out/my_project/src", "out/my_project"]
    );
}

#[test]
fn separator_is_not_doubled() {
    let tree = read("r/\n└── a.txt");
    for (base, expected) in [
        ("", "r/a.txt"),
        (".", "./r/a.txt"),
        ("out", "out/r/a.txt"),
        ("out/", "out/r/a.txt"),
        ("/", "/r/a.txt"),
        ("/tmp/x", "/tmp/x/r/a.txt"),
    ] {
        let steps = FilesystemBuilder::new(base, false, false).plan(&tree, 0, false);
        assert_eq!(created(&steps, StepKind::File), vec![expected], "{:?}", base);
    }
    let steps = FilesystemBuilder::new("", false, false).plan(&tree, 0, true);
    assert_eq!(created(&steps, StepKind::Directory), vec![""]);
    assert_eq!(created(&steps, StepKind::File), vec!["a.txt"]);
}

#[test]
fn traversal_is_depth_first_in_drawing_order() {
    let text = "r/\n├── a/\n│   ├── b/\n│   │   └── c.txt\n│   └── d.txt\n├── e/\n│   └── f/\n└── g.txt";
    let steps = FilesystemBuilder::new("o", false, false).plan(&read(text), 0, true);
    let order: Vec<&str> = steps
        .iter()
        .filter(|s| s.kind != StepKind::ParentDirectory)
        .map(|s| s.path.as_str())
        .collect();
    assert_eq!(
        order,
        vec!["o", "o/a", "o/a/b", "o/a/b/c.txt", "o/a/d.txt", "o/e", "o/e/f", "o/g.txt"]
    );
}

#[test]
fn skipping_the_root_is_building_what_hangs_below_it() {
    let wrapped = read("wrapper/\n└── project/\n    ├── src/\n    │   └── lib.rs\n    └── Cargo.toml");
    let inner = read("project/\n├── src/\n│   └── lib.rs\n└── Cargo.toml");
    let skipped = FilesystemBuilder::new("out", false, false).plan(&wrapped, 0, true);
    let kept = FilesystemBuilder::new("out", false, false).plan(&inner, 0, false);
    assert_eq!(skipped[0], step(StepKind::Directory, "out", ""));
    assert_eq!(skipped[1..], kept[..]);
}

#[test]
fn only_the_root_hierarchy_is_created() {
    let text = "a/\n├── x/\nb/\n│   └── deep.txt\n└── y.txt";
    let steps = FilesystemBuilder::new("o", false, false).plan(&read(text), 0, false);
    assert_eq!(created(&steps, StepKind::Directory), vec!["o/a", "o/a/x"]);
    assert_eq!(created(&steps, StepKind::File), vec!["o/a/x/deep.txt"]);
}

#[test]
fn root_file_skipped_is_created_at_the_base() {
    let tree = read("README.md");
    let steps = FilesystemBuilder::new("out", false, false).plan(&tree, 0, true);
    assert_eq!(steps, vec![step(StepKind::File, "out", "")]);
    let steps = FilesystemBuilder::new("out", false, false).plan(&tree, 0, false);
    assert_eq!(
        steps,
        vec![step(StepKind::ParentDirectory, "out", ""), step(StepKind::File, "out/README.md", "")]
    );
}

#[test]
fn any_node_can_be_built_from() {
    let text = "r/\n├── a/\n│   └── b.txt\n└── c.txt";
    let tree = read(text);
    let mut builder = FilesystemBuilder::new("o", false, false);
    let steps = builder.plan(&tree, 1, false);
    assert_eq!(
        steps,
        vec![
            step(StepKind::Directory, "o/r/a", ""),
            step(StepKind::ParentDirectory, "o/r/a", ""),
            step(StepKind::File, "o/r/a/b.txt", ""),
        ]
    );
    assert_eq!(builder.build(&tree, 1, false, None).unwrap(), (1, 1));
    assert_eq!(builder.build(&tree, 3, true, None).unwrap(), (0, 1));
    assert_eq!(builder.plan(&tree, 3, true), vec![
        step(StepKind::ParentDirectory, "o", ""),
        step(StepKind::File, "o/c.txt", ""),
    ]);
}

#[test]
fn repeated_paths_count_once() {
    let tree = read("r/\n├── a/\n├── a/\n├── b.txt\n├── a\n└── b.txt");
    let mut builder = FilesystemBuilder::new("o", false, false);
    assert_eq!(builder.plan(&tree, 0, true).len(), 8);
    assert_eq!(builder.build(&tree, 0, true, None).unwrap(), (2, 1));
    assert_eq!(builder.get_summary(), (2, 1, 3, false));
}

#[test]
fn dry_run_asks_for_nothing_and_counts_the_same() {
    let tree = read(PROJECT);
    let mut dry = FilesystemBuilder::new("out/", true, false);
    let mut real = FilesystemBuilder::new("out/", false, false);
    assert_eq!(dry.steps_to_perform(&tree, 0, true), vec![]);
    assert_eq!(real.steps_to_perform(&tree, 0, true), real.plan(&tree, 0, true));
    assert_eq!(dry.plan(&tree, 0, true), real.plan(&tree, 0, true));
    assert_eq!(dry.build(&tree, 0, true, None).unwrap(), real.build(&tree, 0, true, None).unwrap());
    assert_eq!(dry.get_summary(), (2, 3, 5, true));
    assert_eq!(real.get_summary(), (2, 3, 5, false));
}

#[test]
fn dry_run_ignores_a_reported_failure() {
    let tree = read(PROJECT);
    let mut dry = FilesystemBuilder::new("out/", true, false);
    let failure = Failure { step: 1, cause: Error::new(ErrorKind::Other, "boom") };
    assert_eq!(dry.build(&tree, 0, true, Some(failure)).unwrap(), (2, 3));
}

#[test]
fn each_run_starts_with_empty_records() {
    let big = read(PROJECT);
    let small = read("r/\n└── a.txt");
    let mut builder = FilesystemBuilder::new("out", false, false);
    assert_eq!(builder.get_summary(), (0, 0, 0, false));
    assert_eq!(builder.build(&big, 0, true, None).unwrap(), (2, 3));
    assert_eq!(builder.build(&small, 0, true, None).unwrap(), (1, 1));
    assert_eq!(builder.get_summary(), (1, 1, 2, false));
    assert_eq!(builder.build(&big, 0, true, None).unwrap(), (2, 3));
}

#[test]
fn failed_directory_is_a_directory_error() {
    let tree = read(PROJECT);
    let mut builder = FilesystemBuilder::new("out/", false, false);
    let failure = Failure { step: 1, cause: Error::new(ErrorKind::PermissionDenied, "denied") };
    match builder.build(&tree, 0, true, Some(failure)) {
        Err(FilesystemBuildError::DirectoryCreationError { path, source }) => {
            assert_eq!(path, "out/src");
            assert_eq!(source.kind(), ErrorKind::PermissionDenied);
            assert_eq!(source.to_string(), "denied");
        }
        other => panic!("{:?}", other),
    }
    assert_eq!(builder.get_summary(), (1, 0, 1, false));
}

#[test]
fn failed_parent_directory_is_a_directory_error() {
    let tree = read(PROJECT);
    let mut builder = FilesystemBuilder::new("out/", false, false);
    let failure = Failure { step: 6, cause: Error::new(ErrorKind::Other, "no parent") };
    match builder.build(&tree, 0, true, Some(failure)) {
        Err(FilesystemBuildError::DirectoryCreationError { path, source }) => {
            assert_eq!(path, "out");
            assert_eq!(source.to_string(), "no parent");
        }
        other => panic!("{:?}", other),
    }
    assert_eq!(builder.get_summary(), (2, 2, 4, false));
}

#[test]
fn failed_file_is_a_file_error() {
    let tree = read(PROJECT);
    let mut builder = FilesystemBuilder::new("out/", false, false);
    let failure = Failure { step: 3, cause: Error::new(ErrorKind::Other, "disk full") };
    match builder.build(&tree, 0, true, Some(failure)) {
        Err(FilesystemBuildError::FileCreationError { path, source }) => {
            assert_eq!(path, "out/src/main.rs");
            assert_eq!(source.to_string(), "disk full");
        }
        other => panic!("{:?}", other),
    }
    assert_eq!(builder.get_summary(), (2, 0, 2, false));
}

#[test]
fn failure_behind_the_last_step_is_ignored() {
    let tree = read(PROJECT);
    let mut builder = FilesystemBuilder::new("out/", false, false);
    let failure = Failure { step: 8, cause: Error::new(ErrorKind::Other, "late") };
    assert_eq!(builder.build(&tree, 0, true, Some(failure)).unwrap(), (2, 3));
}

#[test]
fn failure_at_the_first_step_records_nothing() {
    let tree = read(PROJECT);
    let mut builder = FilesystemBuilder::new("out/", false, false);
    builder.build(&tree, 0, true, None).unwrap();
    let failure = Failure { step: 0, cause: Error::new(ErrorKind::Other, "early") };
    assert!(builder.build(&tree, 0, true, Some(failure)).is_err());
    assert_eq!(builder.get_summary(), (0, 0, 0, false));
}

#[test]
fn quiet_builder_reports_nothing() {
    let builder = FilesystemBuilder::new("out", false, false);
    assert_eq!(builder.messages(&step(StepKind::Directory, "out/src", "c")), Vec::<String>::new());
}

#[test]
fn verbose_builder_reports_each_creation() {
    let builder = FilesystemBuilder::new("out", false, true);
    assert_eq!(
        builder.messages(&step(StepKind::Directory, "out/src", "")),
        vec!["Created directory: out/src"]
    );
    assert_eq!(
        builder.messages(&step(StepKind::File, "out/a.txt", "the readme")),
        vec!["Created file: out/a.txt", "  \u{2192} Comment: the readme"]
    );
    assert_eq!(
        builder.messages(&step(StepKind::ParentDirectory, "out", "")),
        Vec::<String>::new()
    );
}

#[test]
fn dry_run_reports_what_it_would_do() {
    let builder = FilesystemBuilder::new("out", true, true);
    assert_eq!(
        builder.messages(&step(StepKind::Directory, "out/src", "sources")),
        vec!["[DRY RUN] Would create directory: out/src", "  \u{2192} Comment: sources"]
    );
    assert_eq!(
        builder.messages(&step(StepKind::File, "out/a.txt", "")),
        vec!["[DRY RUN] Would create file: out/a.txt"]
    );
}

#[test]
fn comments_travel_with_the_steps() {
    let tree = read("r/ # top\n└── a.txt # leaf");
    let steps = FilesystemBuilder::new("o", false, false).plan(&tree, 0, false);
    assert_eq!(
        steps,
        vec![
            step(StepKind::Directory, "o/r", "top"),
            step(StepKind::ParentDirectory, "o/r", ""),
            step(StepKind::File, "o/r/a.txt", "leaf"),
        ]
    );
}

#[test]
fn summary_of_a_real_run() {
    let tree = read(PROJECT);
    let mut builder = FilesystemBuilder::new("out/", false, false);
    builder.build(&tree, 0, true, None).unwrap();
    assert_eq!(
        builder.summary_lines(),
        vec!["", "Summary:", "  📁 Directories: 2", "  📄 Files: 3", "  📊 Total: 5"]
    );
}

#[test]
fn summary_of_a_dry_run() {
    let tree = read(PROJECT);
    let mut builder = FilesystemBuilder::new("out/", true, false);
    builder.build(&tree, 0, false, None).unwrap();
    assert_eq!(
        builder.summary_lines(),
        vec![
            "",
            "[DRY RUN] Summary:",
            "  📁 Directories: 2",
            "  📄 Files: 3",
            "  📊 Total: 5",
            "",
            "💡 Run without --dry-run to actually create the structure.",
        ]
    );
}

#[test]
fn summary_before_any_run() {
    let builder = FilesystemBuilder::new("out/", false, true);
    assert_eq!(
        builder.summary_lines(),
        vec!["", "Summary:", "  📁 Directories: 0", "  📄 Files: 0", "  📊 Total: 0"]
    );
}

#[test]
fn parent_directory_is_the_path_up_to_its_last_separator() {
    let mut tree = Tree::new();
    let root = tree.insert(Node::new(FileItem::new("r/".to_string(), 0, "".to_string(), 1).unwrap()));
    let file = tree.insert(Node::new(
        FileItem::new("docs/readme.md".to_string(), 1, "".to_string(), 2).unwrap(),
    ));
    Node::add_child(&mut tree, root, file);
    let steps = FilesystemBuilder::new("out", false, false).plan(&tree, 0, true);
    assert_eq!(
        steps,
        vec![
            step(StepKind::Directory, "out", ""),
            step(StepKind::ParentDirectory, "out/docs", ""),
            step(StepKind::File, "out/docs/readme.md", ""),
        ]
    );
}

#[test]
fn parent_directory_agrees_with_the_standard_library() {
    for (base, skip) in [("out", false), ("out/", true), ("a/b", true), ("", false), ("", true), ("/", true), ("/x", true), ("x", true)] {
        for text in ["f.txt", "r/\n└── f.txt", "r/\n└── d/\n    └── f.txt"] {
            let tree = read(text);
            let steps = FilesystemBuilder::new(base, false, false).plan(&tree, 0, skip);
            let file = steps.iter().find(|s| s.kind == StepKind::File).unwrap();
            let prepared: Vec<&str> = created(&steps, StepKind::ParentDirectory);
            let expected = std::path::Path::new(&file.path)
                .parent()
                .map(|p| p.to_string_lossy().into_owned())
                .filter(|p| !p.is_empty() && p != "/");
            match expected {
                Some(parent) => assert_eq!(prepared, vec![parent.as_str()], "{:?} {:?}", base, text),
                None => assert_eq!(prepared, Vec::<&str>::new(), "{:?} {:?}", base, text),
            }
        }
    }
}

#[test]
fn root_is_skipped_by_default_for_a_single_top_level_entry() {
    let top = Some("my_project".to_string());
    assert!(default_skip_root(false, &top));
    assert!(!default_skip_root(true, &top));
    assert!(!default_skip_root(false, &None));
    assert!(!default_skip_root(true, &None));
}

#[test]
fn traversal_follows_the_links_not_the_numbering() {
    let mut tree = Tree::new();
    let leaf = tree.insert(Node::new(
        FileItem::new("leaf.txt".to_string(), 2, "".to_string(), 3).unwrap(),
    ));
    let mid = tree.insert(Node::new(FileItem::new("mid/".to_string(), 1, "".to_string(), 2).unwrap()));
    let top = tree.insert(Node::new(FileItem::new("top/".to_string(), 0, "".to_string(), 1).unwrap()));
    Node::add_child(&mut tree, mid, leaf);
    Node::add_child(&mut tree, top, mid);
    let mut builder = FilesystemBuilder::new("o", false, false);
    assert_eq!(
        builder.plan(&tree, top, false),
        vec![
            step(StepKind::Directory, "o/top", ""),
            step(StepKind::Directory, "o/top/mid", ""),
            step(StepKind::ParentDirectory, "o/top/mid", ""),
            step(StepKind::File, "o/top/mid/leaf.txt", ""),
        ]
    );
    assert_eq!(builder.build(&tree, top, true, None).unwrap(), (2, 1));
}

#[test]
fn directory_that_is_there_is_recorded_once() {
    let mut builder = FilesystemBuilder::new("out", false, false);
    let dir = step(StepKind::Directory, "out/src", "");
    assert!(builder.create_directory(&dir, None).is_ok());
    assert_eq!(builder.get_summary(), (1, 0, 1, false));
    assert!(builder.create_directory(&dir, None).is_ok());
    assert_eq!(builder.get_summary(), (1, 0, 1, false));
    assert!(builder.create_directory(&step(StepKind::ParentDirectory, "out/doc", ""), None).is_ok());
    assert_eq!(builder.get_summary(), (1, 0, 1, false));
    assert!(builder.create_directory(&step(StepKind::Directory, "out/doc", ""), None).is_ok());
    assert_eq!(builder.get_summary(), (2, 0, 2, false));
}

#[test]
fn file_that_is_there_is_recorded_once() {
    let mut builder = FilesystemBuilder::new("out", false, false);
    let file = step(StepKind::File, "out/a.txt", "");
    assert!(builder.create_file(&file, None).is_ok());
    assert!(builder.create_file(&file, None).is_ok());
    assert_eq!(builder.get_summary(), (0, 1, 1, false));
}

#[test]
fn refused_creation_records_nothing() {
    let mut builder = FilesystemBuilder::new("out", false, false);
    let dir = step(StepKind::Directory, "out/src", "");
    match builder.create_directory(&dir, Some(Error::new(ErrorKind::Other, "no"))) {
        Err(FilesystemBuildError::DirectoryCreationError { path, source }) => {
            assert_eq!(path, "out/src");
            assert_eq!(source.to_string(), "no");
        }
        other => panic!("{:?}", other),
    }
    let file = step(StepKind::File, "out/a.txt", "");
    match builder.create_file(&file, Some(Error::new(ErrorKind::Other, "full"))) {
        Err(FilesystemBuildError::FileCreationError { path, source }) => {
            assert_eq!(path, "out/a.txt");
            assert_eq!(source.to_string(), "full");
        }
        other => panic!("{:?}", other),
    }
    assert_eq!(builder.get_summary(), (0, 0, 0, false));
}
