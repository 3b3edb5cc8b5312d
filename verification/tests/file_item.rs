use tree2fs_rs::models::{FileItem, FileItemError};

fn item(name: &str) -> FileItem {
    FileItem::new(name.to_string(), 0, "".to_string(), 1).unwrap()
}

#[test]
fn test_valid_filename() {
    let item = FileItem::new("test.txt".to_string(), 0, "".to_string(), 1).unwrap();
    assert_eq!(item.filename, "test.txt");
}

#[test]
fn test_invalid_filename() {
    assert!(FileItem::new("".to_string(), 0, "".to_string(), 1).is_err());
    assert!(FileItem::new("test?.txt".to_string(), 0, "".to_string(), 1).is_err());
}

#[test]
fn test_is_directory() {
    let dir = FileItem::new("folder/".to_string(), 0, "".to_string(), 1).unwrap();
    assert!(dir.is_directory());

    let dir2 = FileItem::new("folder".to_string(), 0, "".to_string(), 1).unwrap();
    assert!(dir2.is_directory());

    let file = FileItem::new("file.txt".to_string(), 0, "".to_string(), 1).unwrap();
    assert!(!file.is_directory());
}

#[test]
fn new_keeps_every_field() {
    let item = FileItem::new("src/".to_string(), 3, "sources".to_string(), 17).unwrap();
    assert_eq!(item.filename, "src/");
    assert_eq!(item.level, 3);
    assert_eq!(item.comment, "sources");
    assert_eq!(item.line_number, 17);
}

#[test]
fn blank_names_are_empty_filenames() {
    for name in ["", " ", "   ", "\t", " \t\r\n", "\u{a0}", "\u{2003}\u{3000}"] {
        assert_eq!(
            FileItem::new(name.to_string(), 0, "".to_string(), 1),
            Err(FileItemError::EmptyFilename),
            "{:?}",
            name
        );
    }
}

#[test]
fn each_forbidden_character_is_refused() {
    let listing = format!("{:?}", ['<', '>', ':', '"', '|', '?', '*']);
    for c in ['<', '>', ':', '"', '|', '?', '*'] {
        let name = format!("a{}b.txt", c);
        assert_eq!(
            FileItem::new(name, 0, "".to_string(), 1),
            Err(FileItemError::InvalidCharacters(listing.clone()))
        );
    }
}

#[test]
fn blank_wins_over_forbidden_only_when_all_is_blank() {
    assert_eq!(FileItem::validate_filename("  "), Err(FileItemError::EmptyFilename));
    assert!(matches!(
        FileItem::validate_filename(" ? "),
        Err(FileItemError::InvalidCharacters(_))
    ));
    assert_eq!(FileItem::validate_filename(" a "), Ok(()));
}

#[test]
fn markers_alone_are_an_empty_filename() {
    for name in ["/", "//", "////"] {
        assert_eq!(FileItem::validate_filename(name), Err(FileItemError::EmptyFilename));
        assert_eq!(
            FileItem::new(name.to_string(), 0, "".to_string(), 1),
            Err(FileItemError::EmptyFilename)
        );
    }
    assert_eq!(FileItem::validate_filename("a/"), Ok(()));
    assert_eq!(FileItem::validate_filename("/a"), Ok(()));
    assert_eq!(FileItem::validate_filename("/a/"), Ok(()));
    assert!(matches!(
        FileItem::validate_filename("?/"),
        Err(FileItemError::InvalidCharacters(_))
    ));
}

#[test]
fn accepted_names_are_never_empty_without_the_marker() {
    for name in ["a", "a/", "a//", "/a", "x.y/", " /", "caf\u{e9}/"] {
        let item = FileItem::new(name.to_string(), 0, "".to_string(), 1).unwrap();
        assert!(!item.name().is_empty(), "{:?}", name);
    }
}

#[test]
fn other_punctuation_is_accepted() {
    for name in ["a-b_c.txt", "weird#name", "with space.md", "caf\u{e9}.txt", "a\\b", "{x}[y](z)"] {
        assert!(FileItem::new(name.to_string(), 0, "".to_string(), 1).is_ok(), "{:?}", name);
    }
}

#[test]
fn directory_is_decided_by_dot_and_marker() {
    assert!(item("README").is_directory());
    assert!(item("v1.0/").is_directory());
    assert!(item("a.b/").is_directory());
    assert!(!item("a.b").is_directory());
    assert!(!item(".gitignore").is_directory());
    assert!(!item("file.").is_directory());
    assert!(!item("dir/file.txt").is_directory());
    assert!(item("/a").is_directory());
}

#[test]
fn name_drops_every_trailing_marker() {
    assert_eq!(item("folder/").name(), "folder");
    assert_eq!(item("folder//").name(), "folder");
    assert_eq!(item("folder").name(), "folder");
    assert_eq!(item("a/b/").name(), "a/b");
    assert_eq!(item("file.txt").name(), "file.txt");
    assert_eq!(item("/x/").name(), "/x");
    assert_eq!(item("\u{e9}t\u{e9}/").name(), "\u{e9}t\u{e9}");
}

#[test]
fn name_agrees_with_trimming_the_marker() {
    for name in ["folder/", "x", "a/b//", "/x///", "caf\u{e9}/", "dot.d/"] {
        assert_eq!(item(name).name(), name.trim_end_matches('/'));
    }
}

#[test]
fn extension_is_what_follows_the_last_dot() {
    assert_eq!(item("file.txt").extension(), Some("txt"));
    assert_eq!(item("archive.tar.gz").extension(), Some("gz"));
    assert_eq!(item(".gitignore").extension(), Some("gitignore"));
    assert_eq!(item("file.").extension(), None);
    assert_eq!(item("folder").extension(), None);
    assert_eq!(item("folder/").extension(), None);
    assert_eq!(item("v1.0/").extension(), None);
    assert_eq!(item("r\u{e9}sum\u{e9}.t\u{e9}x").extension(), Some("t\u{e9}x"));
}

#[test]
fn name_without_extension_stops_at_the_last_dot() {
    assert_eq!(item("file.txt").name_without_extension(), "file");
    assert_eq!(item("archive.tar.gz").name_without_extension(), "archive.tar");
    assert_eq!(item(".gitignore").name_without_extension(), "");
    assert_eq!(item("file.").name_without_extension(), "file");
    assert_eq!(item("folder/").name_without_extension(), "folder");
    assert_eq!(item("v1.0/").name_without_extension(), "v1.0");
    assert_eq!(item("README").name_without_extension(), "README");
    assert_eq!(item("r\u{e9}sum\u{e9}.tex").name_without_extension(), "r\u{e9}sum\u{e9}");
}
