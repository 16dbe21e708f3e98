use badm::config::{Config, InputError};
use badm::fsmodel::{Action, Entry};
use badm::handler::FileHandler;
use badm::paths::{expand_home, FsPath};
use badm::scanner::DirScanner;

fn p(text: &str) -> FsPath {
    FsPath::parse(text).unwrap()
}

#[test]
fn parse_skips_empty_and_dot_segments() {
    assert_eq!(p("//home/./u//.gitconfig/").to_text(), "/home/u/.gitconfig");
    assert_eq!(p("/").to_text(), "/");
    assert_eq!(p("/").depth(), 0);
    assert_eq!(p("/a/b/c").depth(), 3);
}

#[test]
fn parse_refuses_relative_and_parent_segments() {
    assert!(FsPath::parse("home/u").is_none());
    assert!(FsPath::parse("").is_none());
    assert!(FsPath::parse("/home/../etc").is_none());
    assert!(FsPath::parse("/home/..").is_none());
    assert!(FsPath::parse("/home/..x").is_some());
}

#[test]
fn path_relations() {
    assert!(p("/a/b").same_as(&p("/a//b/")));
    assert!(!p("/a/b").same_as(&p("/a/c")));
    assert!(p("/a/b/c").starts_with(&p("/a/b")));
    assert!(!p("/a/bc").starts_with(&p("/a/b")));
    assert_eq!(p("/a/b").parent().unwrap().to_text(), "/a");
    assert!(FsPath::root().parent().is_none());
    assert!(p("/x/.git").is_named(".git"));
    assert!(!p("/x/.gitignore").is_named(".git"));
}

#[test]
fn store_file_moves_then_links() {
    let plan = FileHandler::store_file(&p("/home/u/.vimrc"), &p("/dots/home/u/.vimrc"));
    assert_eq!(plan.target.to_text(), "/dots/home/u/.vimrc");
    assert_eq!(plan.actions.len(), 2);
    match &plan.actions[0] {
        Action::MoveFile { src, dst } => {
            assert_eq!(src.to_text(), "/home/u/.vimrc");
            assert_eq!(dst.to_text(), "/dots/home/u/.vimrc");
        }
        other => panic!("unexpected {:?}", other),
    }
    match &plan.actions[1] {
        Action::Symlink { target, link } => {
            assert_eq!(target.to_text(), "/dots/home/u/.vimrc");
            assert_eq!(link.to_text(), "/home/u/.vimrc");
        }
        other => panic!("unexpected {:?}", other),
    }
}

#[test]
fn config_needs_a_directory() {
    let config = Config::new(p("/home/u/.dots"), &Entry::Dir).unwrap();
    assert_eq!(config.directory.to_text(), "/home/u/.dots");
    assert!(matches!(Config::new(p("/home/u/.dots"), &Entry::File), Err(InputError::BadInput)));
    assert!(matches!(Config::new(p("/home/u/.dots"), &Entry::Missing), Err(InputError::BadInput)));
}

#[test]
fn set_dots_dir_creates_missing_directory() {
    let plan = Config::set_dots_dir(p("/home/u/.dots"), &Entry::Missing).unwrap();
    assert_eq!(plan.target.to_text(), "/home/u/.dots");
    assert_eq!(plan.actions.len(), 1);
    match &plan.actions[0] {
        Action::CreateDirAll(d) => assert_eq!(d.to_text(), "/home/u/.dots"),
        other => panic!("unexpected {:?}", other),
    }
    let plan = Config::set_dots_dir(p("/home/u/.dots"), &Entry::Dir).unwrap();
    assert!(plan.actions.is_empty());
    assert!(matches!(Config::set_dots_dir(p("/home/u/.dots"), &Entry::File), Err(InputError::BadInput)));
}

#[test]
fn pick_config_file_prefers_first_found() {
    assert_eq!(Config::pick_config_file(&vec![false, true]), Some(1));
    assert_eq!(Config::pick_config_file(&vec![true, true]), Some(0));
    assert_eq!(Config::pick_config_file(&vec![false, false]), None);
    assert_eq!(Config::pick_config_file(&vec![]), None);
}

#[test]
fn scanner_flat_records_directories() {
    let mut scanner = DirScanner::new();
    assert!(!scanner.visit(p("/dots/a"), true));
    assert!(!scanner.visit(p("/dots/b"), false));
    let entries: Vec<String> = scanner.into_entries().iter().map(|e| e.to_text()).collect();
    assert_eq!(entries, vec!["/dots/a".to_string(), "/dots/b".to_string()]);
}

#[test]
fn scanner_recursive_descends_but_skips_git() {
    let mut scanner = DirScanner::default().recursive();
    assert!(scanner.visit(p("/dots/home"), true));
    assert!(!scanner.visit(p("/dots/.git"), true));
    assert!(!scanner.visit(p("/dots/home/.gitconfig"), false));
    let entries: Vec<String> = scanner.into_entries().iter().map(|e| e.to_text()).collect();
    assert_eq!(entries, vec!["/dots/home/.gitconfig".to_string()]);
}

#[test]
fn expand_home_replaces_leading_tilde() {
    assert_eq!(expand_home("~", "/home/u"), "/home/u");
    assert_eq!(expand_home("~/.gitconfig", "/home/u"), "/home/u/.gitconfig");
    assert_eq!(expand_home("~other/x", "/home/u"), "~other/x");
    assert_eq!(expand_home("/etc/~/x", "/home/u"), "/etc/~/x");
    assert_eq!(expand_home("", "/home/u"), "");
}

#[test]
fn text_round_trip() {
    for text in ["/", "/a", "/home/u/.dots/home/u/.gitconfig", "/x/..y/z"] {
        let path = p(text);
        assert_eq!(path.to_text(), text);
        assert!(FsPath::parse(&path.to_text()).unwrap().same_as(&path));
    }
}
