use std::collections::HashMap;

use badm::commands::{classify_restore, deploy_dotfile, restore_dotfile, store_dotfile, DotError, RestoreSource};
use badm::fsmodel::{Action, Entry, Plan};
use badm::paths::{join_full_paths, unmirror, FsPath, PathError};

#[derive(Clone, Debug, PartialEq)]
enum Node {
    File(String),
    Dir,
    Link(String),
}

/// An in-memory file system that performs planned actions.
#[derive(Clone, Debug, PartialEq)]
struct MemFs {
    nodes: HashMap<String, Node>,
}

fn p(text: &str) -> FsPath {
    FsPath::parse(text).unwrap()
}

fn parent_text(path: &FsPath) -> Option<String> {
    path.parent().map(|d| d.to_text())
}

impl MemFs {
    fn new() -> MemFs {
        MemFs { nodes: HashMap::new() }
    }

    fn with_dir(mut self, dir: &str) -> MemFs {
        let path = p(dir);
        self.create_dir_all(&path).unwrap();
        self
    }

    fn with_file(mut self, file: &str, content: &str) -> MemFs {
        self.nodes.insert(p(file).to_text(), Node::File(content.to_string()));
        self
    }

    fn get(&self, path: &str) -> Option<&Node> {
        self.nodes.get(&p(path).to_text())
    }

    fn observe(&self, path: &FsPath) -> Entry {
        if path.depth() == 0 {
            return Entry::Dir;
        }
        match self.nodes.get(&path.to_text()) {
            None => Entry::Missing,
            Some(Node::File(_)) => Entry::File,
            Some(Node::Dir) => Entry::Dir,
            Some(Node::Link(t)) => Entry::Symlink(p(t)),
        }
    }

    fn parent_is_dir(&self, path: &FsPath) -> bool {
        match parent_text(path) {
            None => false,
            Some(d) => d == "/" || self.nodes.get(&d) == Some(&Node::Dir),
        }
    }

    fn create_dir_all(&mut self, dir: &FsPath) -> Result<(), String> {
        let mut chain = vec![];
        let mut cur = Some(dir.duplicate());
        while let Some(d) = cur {
            if d.depth() == 0 {
                break;
            }
            cur = d.parent();
            chain.push(d.to_text());
        }
        for d in chain.iter() {
            match self.nodes.get(d) {
                None | Some(Node::Dir) => {}
                _ => return Err(format!("not a directory: {}", d)),
            }
        }
        for d in chain {
            self.nodes.entry(d).or_insert(Node::Dir);
        }
        Ok(())
    }

    fn perform(&mut self, plan: &Plan) -> Result<(), String> {
        for action in plan.actions.iter() {
            match action {
                Action::CreateDirAll(d) => self.create_dir_all(d)?,
                Action::MoveFile { src, dst } => {
                    let content = match self.nodes.get(&src.to_text()) {
                        Some(Node::File(c)) => c.clone(),
                        _ => return Err("source is not a file".to_string()),
                    };
                    match self.nodes.get(&dst.to_text()) {
                        None | Some(Node::File(_)) => {}
                        _ => return Err("destination is occupied".to_string()),
                    }
                    if !self.parent_is_dir(dst) {
                        return Err("no parent directory".to_string());
                    }
                    self.nodes.insert(dst.to_text(), Node::File(content));
                    self.nodes.remove(&src.to_text());
                }
                Action::Symlink { target, link } => {
                    if self.nodes.contains_key(&link.to_text()) || !self.parent_is_dir(link) {
                        return Err("cannot link".to_string());
                    }
                    self.nodes.insert(link.to_text(), Node::Link(target.to_text()));
                }
                Action::Remove(path) => match self.nodes.get(&path.to_text()) {
                    Some(Node::File(_)) | Some(Node::Link(_)) => {
                        self.nodes.remove(&path.to_text());
                    }
                    _ => return Err("nothing to remove".to_string()),
                },
            }
        }
        Ok(())
    }

    fn store(&mut self, root: &FsPath, path: &FsPath) -> Result<FsPath, String> {
        let mirrored = join_full_paths(root, path).unwrap();
        let plan = store_dotfile(
            &Some(root.duplicate()),
            path,
            &self.observe(path),
            &self.observe(&mirrored),
        )
        .map_err(|e| format!("{:?}", e))?;
        self.perform(&plan)?;
        Ok(plan.target)
    }

    fn deploy(&mut self, stored: &FsPath, original: &FsPath) -> Result<(), String> {
        let plan = deploy_dotfile(stored, original, &self.observe(original))
            .map_err(|e| format!("{:?}", e))?;
        self.perform(&plan)
    }

    fn restore(&mut self, root: &FsPath, path: &FsPath) -> Result<FsPath, String> {
        let root = Some(root.duplicate());
        let at_path = self.observe(path);
        let source = classify_restore(&root, path, &at_path).map_err(|e| format!("{:?}", e))?;
        let at_original = self.observe(source.original());
        let plan = restore_dotfile(&root, path, &at_path, &at_original)
            .map_err(|e| format!("{:?}", e))?;
        self.perform(&plan)?;
        Ok(plan.target)
    }
}

fn home_with_gitconfig() -> (MemFs, FsPath, FsPath) {
    let fs = MemFs::new().with_dir("/home/u/.dots").with_file("/home/u/.gitconfig", "x=1");
    (fs, p("/home/u/.dots"), p("/home/u/.gitconfig"))
}

#[test]
fn join_full_paths_replicates_hierarchy() {
    let joined = join_full_paths(&p("/home/ferris/.dotfiles"), &p("/home/ferris")).unwrap();
    assert_eq!(joined.to_text(), "/home/ferris/.dotfiles/home/ferris");
}

#[test]
fn join_full_paths_with_root_original() {
    let joined = join_full_paths(&p("/home/u/.dots"), &FsPath::root()).unwrap();
    assert_eq!(joined.to_text(), "/home/u/.dots");
}

#[test]
fn unmirror_recovers_original() {
    let root = p("/home/u/.dots");
    for original in ["/home/u/.gitconfig", "/etc/hosts", "/", "/home/u/.dots/x"] {
        let mirrored = join_full_paths(&root, &p(original)).unwrap();
        assert_eq!(unmirror(&root, &mirrored).unwrap().to_text(), original);
    }
}

#[test]
fn unmirror_refuses_path_outside_root() {
    let root = p("/home/u/.dots");
    assert_eq!(unmirror(&root, &p("/home/u/.gitconfig")).unwrap_err(), PathError::NotManaged);
    assert_eq!(unmirror(&root, &p("/home/u/.dotsx/a")).unwrap_err(), PathError::NotManaged);
    assert_eq!(unmirror(&root, &p("/home/u/.dots/a/b")).unwrap().to_text(), "/a/b");
}

#[test]
fn store_plans_directory_then_move() {
    let root = p("/home/u/.dots");
    let path = p("/home/u/.gitconfig");
    let plan = store_dotfile(&Some(root), &path, &Entry::File, &Entry::Missing).unwrap();
    assert_eq!(plan.target.to_text(), "/home/u/.dots/home/u/.gitconfig");
    assert_eq!(plan.actions.len(), 2);
    match &plan.actions[0] {
        Action::CreateDirAll(d) => assert_eq!(d.to_text(), "/home/u/.dots/home/u"),
        other => panic!("unexpected {:?}", other),
    }
    match &plan.actions[1] {
        Action::MoveFile { src, dst } => {
            assert_eq!(src.to_text(), "/home/u/.gitconfig");
            assert_eq!(dst.to_text(), "/home/u/.dots/home/u/.gitconfig");
        }
        other => panic!("unexpected {:?}", other),
    }
}

#[test]
fn store_without_root_is_refused() {
    let err = store_dotfile(&None, &p("/home/u/.gitconfig"), &Entry::File, &Entry::Missing).unwrap_err();
    assert_eq!(err, DotError::NoManagedRootConfigured);
}

#[test]
fn store_of_a_directory_is_refused() {
    let root = Some(p("/home/u/.dots"));
    let err = store_dotfile(&root, &p("/home/u/.config"), &Entry::Dir, &Entry::Missing).unwrap_err();
    assert_eq!(err, DotError::NotAFile);
    let err = store_dotfile(&root, &p("/home/u/.config"), &Entry::Missing, &Entry::Missing).unwrap_err();
    assert_eq!(err, DotError::NotAFile);
}

#[test]
fn store_onto_occupied_mirror_is_refused() {
    let root = Some(p("/home/u/.dots"));
    let path = p("/home/u/.gitconfig");
    let err = store_dotfile(&root, &path, &Entry::File, &Entry::Dir).unwrap_err();
    assert_eq!(err, DotError::DestinationExists);
    let err = store_dotfile(&root, &path, &Entry::File, &Entry::Symlink(p("/elsewhere"))).unwrap_err();
    assert_eq!(err, DotError::DestinationExists);
    let plan = store_dotfile(&root, &path, &Entry::File, &Entry::File).unwrap();
    assert_eq!(plan.actions.len(), 2);
}

#[test]
fn store_of_deployed_path_changes_nothing() {
    let root = Some(p("/home/u/.dots"));
    let path = p("/home/u/.gitconfig");
    let link = Entry::Symlink(p("/home/u/.dots/home/u/.gitconfig"));
    let first = store_dotfile(&root, &path, &link, &Entry::File).unwrap();
    let second = store_dotfile(&root, &path, &link, &Entry::File).unwrap();
    assert_eq!(first.target.to_text(), "/home/u/.dots/home/u/.gitconfig");
    assert_eq!(second.target.to_text(), first.target.to_text());
    assert!(first.actions.is_empty());
    assert!(second.actions.is_empty());
}

#[test]
fn store_twice_after_deploy_is_stable() {
    let (mut fs, root, path) = home_with_gitconfig();
    let stored = fs.store(&root, &path).unwrap();
    fs.deploy(&stored, &path).unwrap();
    let before = fs.clone();
    let again = fs.store(&root, &path).unwrap();
    assert_eq!(again.to_text(), stored.to_text());
    assert_eq!(fs, before);
    let third = fs.store(&root, &path).unwrap();
    assert_eq!(third.to_text(), stored.to_text());
    assert_eq!(fs, before);
}

#[test]
fn store_then_deploy_gitconfig() {
    let (mut fs, root, path) = home_with_gitconfig();
    let stored = fs.store(&root, &path).unwrap();
    assert_eq!(stored.to_text(), "/home/u/.dots/home/u/.gitconfig");
    assert_eq!(fs.get("/home/u/.dots/home/u/.gitconfig"), Some(&Node::File("x=1".to_string())));
    assert_eq!(fs.get("/home/u/.gitconfig"), None);
    fs.deploy(&p("/home/u/.dots/home/u/.gitconfig"), &p("/home/u/.gitconfig")).unwrap();
    assert_eq!(
        fs.get("/home/u/.gitconfig"),
        Some(&Node::Link("/home/u/.dots/home/u/.gitconfig".to_string()))
    );
}

#[test]
fn restore_gitconfig_from_link() {
    let (mut fs, root, path) = home_with_gitconfig();
    let stored = fs.store(&root, &path).unwrap();
    fs.deploy(&stored, &path).unwrap();
    let restored = fs.restore(&root, &p("/home/u/.gitconfig")).unwrap();
    assert_eq!(restored.to_text(), "/home/u/.gitconfig");
    assert_eq!(fs.get("/home/u/.gitconfig"), Some(&Node::File("x=1".to_string())));
    assert_eq!(fs.get("/home/u/.dots/home/u/.gitconfig"), None);
}

#[test]
fn restore_outside_root_is_refused() {
    let fs = MemFs::new().with_dir("/home/u/.dots").with_file("/etc/hosts", "127.0.0.1");
    let before = fs.clone();
    let root = Some(p("/home/u/.dots"));
    let path = p("/etc/hosts");
    let err = restore_dotfile(&root, &path, &fs.observe(&path), &Entry::Missing).unwrap_err();
    assert_eq!(err, DotError::NotManaged);
    let err = classify_restore(&root, &path, &fs.observe(&path)).unwrap_err();
    assert_eq!(err, DotError::NotManaged);
    assert_eq!(fs, before);
}

#[test]
fn restore_link_to_unmanaged_file_is_refused() {
    let root = Some(p("/home/u/.dots"));
    let err = restore_dotfile(&root, &p("/home/u/.bashrc"), &Entry::Symlink(p("/etc/passwd")), &Entry::Missing)
        .unwrap_err();
    assert_eq!(err, DotError::NotManaged);
}

#[test]
fn restore_without_root_is_refused() {
    let err = restore_dotfile(&None, &p("/home/u/.bashrc"), &Entry::File, &Entry::Missing).unwrap_err();
    assert_eq!(err, DotError::NoManagedRootConfigured);
}

#[test]
fn restore_of_managed_directory_is_refused() {
    let root = Some(p("/home/u/.dots"));
    let err = restore_dotfile(&root, &p("/home/u/.dots/home"), &Entry::Dir, &Entry::Dir).unwrap_err();
    assert_eq!(err, DotError::NotAFile);
}

#[test]
fn restore_stored_file_plans() {
    let root = Some(p("/home/u/.dots"));
    let stored = p("/home/u/.dots/home/u/.vimrc");
    match classify_restore(&root, &stored, &Entry::File).unwrap() {
        RestoreSource::Stored { stored: s, original } => {
            assert_eq!(s.to_text(), "/home/u/.dots/home/u/.vimrc");
            assert_eq!(original.to_text(), "/home/u/.vimrc");
        }
        other => panic!("unexpected {:?}", other),
    }
    let free = restore_dotfile(&root, &stored, &Entry::File, &Entry::Missing).unwrap();
    assert_eq!(free.target.to_text(), "/home/u/.vimrc");
    assert_eq!(free.actions.len(), 1);
    let occupied = restore_dotfile(&root, &stored, &Entry::File, &Entry::File).unwrap();
    assert_eq!(occupied.actions.len(), 2);
    match &occupied.actions[0] {
        Action::Remove(d) => assert_eq!(d.to_text(), "/home/u/.vimrc"),
        other => panic!("unexpected {:?}", other),
    }
}

#[test]
fn restore_stored_form_overwrites_destination() {
    let mut fs = MemFs::new()
        .with_dir("/home/u/.dots/home/u")
        .with_file("/home/u/.dots/home/u/.vimrc", "set nu")
        .with_file("/home/u/.vimrc", "old");
    let restored = fs.restore(&p("/home/u/.dots"), &p("/home/u/.dots/home/u/.vimrc")).unwrap();
    assert_eq!(restored.to_text(), "/home/u/.vimrc");
    assert_eq!(fs.get("/home/u/.vimrc"), Some(&Node::File("set nu".to_string())));
    assert_eq!(fs.get("/home/u/.dots/home/u/.vimrc"), None);
}

#[test]
fn store_deploy_restore_gives_file_back() {
    let (mut fs, root, path) = home_with_gitconfig();
    let stored = fs.store(&root, &path).unwrap();
    fs.deploy(&stored, &path).unwrap();
    let restored = fs.restore(&root, &stored).unwrap();
    assert_eq!(restored.to_text(), "/home/u/.gitconfig");
    assert_eq!(fs.get("/home/u/.gitconfig"), Some(&Node::File("x=1".to_string())));
    assert_eq!(fs.get("/home/u/.dots/home/u/.gitconfig"), None);
}

#[test]
fn store_leaves_nothing_at_source() {
    let (mut fs, root, path) = home_with_gitconfig();
    fs.store(&root, &path).unwrap();
    assert_eq!(fs.get("/home/u/.gitconfig"), None);
    assert!(matches!(fs.observe(&path), Entry::Missing));
}

#[test]
fn deploy_twice_keeps_state() {
    let (mut fs, root, path) = home_with_gitconfig();
    let stored = fs.store(&root, &path).unwrap();
    fs.deploy(&stored, &path).unwrap();
    let after_first = fs.clone();
    fs.deploy(&stored, &path).unwrap();
    assert_eq!(fs, after_first);
}

#[test]
fn deploy_creates_missing_directories() {
    let mut fs = MemFs::new()
        .with_dir("/home/u/.dots/home/u/.config/app")
        .with_file("/home/u/.dots/home/u/.config/app/conf", "a");
    fs.deploy(&p("/home/u/.dots/home/u/.config/app/conf"), &p("/home/u/.config/app/conf")).unwrap();
    assert_eq!(fs.get("/home/u/.config/app"), Some(&Node::Dir));
    assert_eq!(
        fs.get("/home/u/.config/app/conf"),
        Some(&Node::Link("/home/u/.dots/home/u/.config/app/conf".to_string()))
    );
}

#[test]
fn deploy_onto_regular_file_is_refused() {
    let fs = MemFs::new().with_dir("/home/u/.dots/home/u").with_file("/home/u/.dots/home/u/.gitconfig", "x=1")
        .with_file("/home/u/.gitconfig", "mine");
    let before = fs.clone();
    let original = p("/home/u/.gitconfig");
    let err = deploy_dotfile(&p("/home/u/.dots/home/u/.gitconfig"), &original, &fs.observe(&original))
        .unwrap_err();
    assert_eq!(err, DotError::DestinationExists);
    assert_eq!(fs, before);
    assert_eq!(fs.get("/home/u/.gitconfig"), Some(&Node::File("mine".to_string())));
}

#[test]
fn deploy_onto_other_link_is_refused() {
    let err = deploy_dotfile(&p("/d/a"), &p("/a"), &Entry::Symlink(p("/d/b"))).unwrap_err();
    assert_eq!(err, DotError::DestinationExists);
    let err = deploy_dotfile(&p("/d/a"), &p("/a"), &Entry::Other).unwrap_err();
    assert_eq!(err, DotError::DestinationExists);
    let plan = deploy_dotfile(&p("/d/a"), &p("/a"), &Entry::Symlink(p("/d/a"))).unwrap();
    assert!(plan.actions.is_empty());
}
