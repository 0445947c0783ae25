use rm_rf::ensure_removed;
use rm_rf::remove;
use rm_rf::Error;
use rm_rf::FailureKind;
use rm_rf::IoFailure;
use rm_rf::Operation;
use rm_rf::Removal;
use rm_rf::Reply;
use rm_rf::Request;
use std::collections::BTreeMap;

/// An entry of the simulated filesystem.
#[derive(Clone, Debug, PartialEq)]
enum Node {
    File,
    /// A directory with the owner's permission digit: 4 to list, 2 to
    /// change its entries, 1 to reach them.
    Dir(u32),
    Link(String),
}

/// A filesystem in memory, with the permission rules of POSIX for a user
/// who owns every entry and is not the superuser. Paths are relative to a
/// working directory that grants everything.
struct Host {
    nodes: BTreeMap<String, Node>,
    asked: Vec<Request>,
    listed: usize,
}

fn failure(kind: FailureKind, message: &str) -> Reply {
    Reply::Failed(IoFailure { kind, message: String::from(message) })
}

fn parent_of(path: &str) -> Option<&str> {
    path.rfind('/').map(|at| &path[..at])
}

impl Host {
    fn new() -> Host {
        Host { nodes: BTreeMap::new(), asked: Vec::new(), listed: 0 }
    }

    fn mkdir(&mut self, path: &str) {
        self.nodes.insert(String::from(path), Node::Dir(7));
    }

    fn touch(&mut self, path: &str) {
        self.nodes.insert(String::from(path), Node::File);
    }

    fn link(&mut self, target: &str, path: &str) {
        self.nodes.insert(String::from(path), Node::Link(String::from(target)));
    }

    fn chmod(&mut self, mode: u32, path: &str) {
        if let Some(Node::Dir(bits)) = self.nodes.get_mut(path) {
            *bits = mode;
        }
    }

    fn holds(&self, path: &str) -> bool {
        self.nodes.contains_key(path)
    }

    fn children(&self, dir: &str) -> Vec<String> {
        self.nodes.keys().filter(|key| parent_of(key.as_str()) == Some(dir)).cloned().collect()
    }

    /// Whether the directory that holds `path` grants all of `bits`.
    fn parent_grants(&self, path: &str, bits: u32) -> bool {
        match parent_of(path) {
            None => true,
            Some(parent) => match self.nodes.get(parent) {
                Some(Node::Dir(mode)) => mode & bits == bits,
                _ => false,
            },
        }
    }

    fn perform(&mut self, request: &Request) -> Reply {
        self.asked.push(request.clone());
        let path = request.path.as_str();
        if let Operation::FixPermissions = request.operation {
            return Reply::Done;
        }
        if let Some(parent) = parent_of(path) {
            if !self.holds(parent) {
                return failure(FailureKind::NotFound, "No such file or directory (os error 2)");
            }
        }
        if !self.parent_grants(path, 1) {
            return failure(FailureKind::PermissionDenied, "Permission denied (os error 13)");
        }
        let node = match self.nodes.get(path) {
            Some(node) => node.clone(),
            None => return failure(FailureKind::NotFound, "No such file or directory (os error 2)"),
        };
        match (request.operation, node) {
            (Operation::Stat, Node::Dir(_)) => Reply::Entry { is_dir: true },
            (Operation::Stat, _) => Reply::Entry { is_dir: false },
            (Operation::RemoveFile, Node::Dir(_)) => failure(FailureKind::Other, "Is a directory (os error 21)"),
            (Operation::RemoveFile, _) => self.unlink(path),
            (Operation::RemoveDir, Node::Dir(_)) => {
                if self.children(path).is_empty() {
                    self.unlink(path)
                } else {
                    failure(FailureKind::Other, "Directory not empty (os error 39)")
                }
            }
            (Operation::ReadDir, Node::Dir(mode)) => {
                if mode & 4 == 4 {
                    let children = self.children(path);
                    self.listed += children.len();
                    Reply::Children(children)
                } else {
                    failure(FailureKind::PermissionDenied, "Permission denied (os error 13)")
                }
            }
            _ => failure(FailureKind::Other, "Not a directory (os error 20)"),
        }
    }

    fn unlink(&mut self, path: &str) -> Reply {
        if self.parent_grants(path, 3) {
            self.nodes.remove(path);
            Reply::Done
        } else {
            failure(FailureKind::PermissionDenied, "Permission denied (os error 13)")
        }
    }

    /// Runs a removal to its end against this filesystem.
    fn run(&mut self, mut removal: Removal) -> Result<(), Error> {
        loop {
            match removal.request() {
                Some(request) => {
                    assert!(!removal.is_finished());
                    let reply = self.perform(&request);
                    removal.step(reply);
                }
                None => {
                    assert!(removal.is_finished());
                    return removal.into_outcome().expect("a removal without a request is over");
                }
            }
        }
    }

    fn asked_for(&self, operation: Operation) -> Vec<&str> {
        self.asked.iter().filter(|r| r.operation == operation).map(|r| r.path.as_str()).collect()
    }
}

fn ask(operation: Operation, path: &str) -> Option<Request> {
    Some(Request { operation, path: String::from(path) })
}

fn absent() -> Reply {
    failure(FailureKind::NotFound, "No such file or directory (os error 2)")
}

fn denied() -> IoFailure {
    IoFailure { kind: FailureKind::PermissionDenied, message: String::from("Permission denied (os error 13)") }
}

fn assert_invalid_target(remove_result: Result<(), Error>) {
    match remove_result {
        Err(Error::InvalidTarget(_)) => (),
        _ => panic!(
            "removal target '..' should be considered invalid, actual result is: {:?}",
            remove_result
        ),
    };
}

#[test]
fn remove_parent_directory_test() {
    let mut host = Host::new();
    host.mkdir("parentdirtest");

    assert_invalid_target(host.run(remove("parentdirtest/..")));
    assert_invalid_target(host.run(remove("..")));

    assert!(host.holds("parentdirtest"));
    assert!(host.asked.is_empty());
}

#[test]
fn remove_current_directory_test() {
    let mut host = Host::new();
    host.mkdir("dotdir");

    let remove_result = host.run(remove("dotdir/."));
    assert!(
        remove_result.is_ok(),
        "in contrast to `rm -rf`, removing a path with last component being . is allowed.\
         The parent should still be computable though."
    );
    assert!(!host.holds("dotdir"));
    assert_invalid_target(host.run(remove("."))); // removing "." is not allowed, however.
}

#[test]
fn remove_inner_symlink_test() {
    let mut host = Host::new();
    host.mkdir("inner");
    host.touch("inner/real_file");
    host.link("inner/real_file", "inner/symlink");
    assert!(host.run(remove("inner/symlink")).is_ok());
    assert_eq!(host.nodes.get("inner/real_file"), Some(&Node::File));
    assert!(!host.holds("inner/symlink"));
}

#[test]
fn remove_outer_symlink_test() {
    let mut host = Host::new();
    host.mkdir("dir1");
    host.mkdir("dir1/dir2");
    host.touch("dir1/dir2/kept");
    host.link("dir1/dir2", "symlink");
    assert!(host.run(remove("symlink")).is_ok());
    assert!(!host.holds("symlink"));
    assert!(host.holds("dir1"));
    assert!(host.holds("dir1/dir2"));
    assert!(host.holds("dir1/dir2/kept"));
    assert_eq!(host.asked_for(Operation::RemoveFile), vec!["symlink"]);
    assert!(host.asked_for(Operation::ReadDir).is_empty());
    assert!(host.asked_for(Operation::RemoveDir).is_empty());
}

/// Builds the entry `target` as `up` says and tells whether a lenient
/// removal of it succeeds.
fn removal_succeeds(up: &dyn Fn(&mut Host)) -> bool {
    let mut host = Host::new();
    up(&mut host);
    let success = host.run(ensure_removed("target")).is_ok();
    assert_eq!(success, !host.holds("target"));
    success
}

#[test]
fn behavior_test() {
    assert!(removal_succeeds(&|_| ()));
    assert!(removal_succeeds(&|host| host.touch("target")));

    assert!(removal_succeeds(&|host| host.mkdir("target")));
    assert!(removal_succeeds(&|host| {
        host.mkdir("target");
        host.link("unexistent", "target/link");
    }));
    for mode in [0, 7] {
        assert!(removal_succeeds(&|host| {
            host.mkdir("target");
            host.chmod(mode, "target");
        }));
    }

    for (mode, expected) in [(0, false), (7, true), (4, false), (2, false), (1, false)] {
        let success = removal_succeeds(&|host| {
            host.mkdir("target");
            host.mkdir("target/subdir");
            host.chmod(mode, "target");
        });
        assert_eq!(success, expected, "target/subdir under mode {}", mode);
    }

    assert!(removal_succeeds(&|host| host.link("unexistent", "target")));
    assert!(removal_succeeds(&|host| host.link("/abc/def", "target")));
    assert!(removal_succeeds(&|host| host.link("/", "target")));
}

#[test]
fn dangling_links_are_removed_without_a_look_at_their_targets() {
    for target in ["unexistent", "/abc/def", "/"] {
        let mut host = Host::new();
        host.link(target, "link");
        assert_eq!(host.run(remove("link")), Ok(()));
        assert!(!host.holds("link"));
        assert!(host.asked.iter().all(|request| request.path == "link"));
    }
}

#[test]
fn strict_removal_of_an_absent_path_is_not_found() {
    let mut host = Host::new();
    assert_eq!(host.run(remove("nothing/here")), Err(Error::NotFound));
    assert_eq!(host.asked, vec![Request { operation: Operation::Stat, path: String::from("nothing/here") }]);
}

#[test]
fn lenient_removal_of_an_absent_path_succeeds() {
    let mut host = Host::new();
    assert_eq!(host.run(ensure_removed("nothing/here")), Ok(()));
    assert_eq!(host.run(ensure_removed("nothing/..")), Ok(()));
    assert_eq!(host.run(ensure_removed("")), Ok(()));
}

#[test]
fn lenient_removal_refuses_an_invalid_target_that_exists() {
    let mut removal = ensure_removed("..");
    assert_eq!(removal.request(), ask(Operation::Stat, ".."));
    removal.step(Reply::Entry { is_dir: true });
    assert_eq!(removal.request(), None);
    assert_invalid_target(removal.into_outcome().unwrap());
}

#[test]
fn lenient_removal_twice_succeeds_the_second_time() {
    let mut host = Host::new();
    host.mkdir("a");
    host.mkdir("a/b");
    host.touch("a/b/f");
    assert_eq!(host.run(ensure_removed("a")), Ok(()));
    assert_eq!(host.run(ensure_removed("a")), Ok(()));

    let mut empty = Host::new();
    assert_eq!(empty.run(ensure_removed("a")), Ok(()));
    assert_eq!(empty.run(ensure_removed("a")), Ok(()));
}

#[test]
fn a_target_that_vanishes_before_the_probe_is_success_only_when_lenient() {
    let mut lenient = ensure_removed("x/.");
    assert_eq!(lenient.request(), ask(Operation::Stat, "x/."));
    lenient.step(Reply::Entry { is_dir: true });
    assert_eq!(lenient.request(), ask(Operation::Stat, "x"));
    lenient.step(absent());
    assert_eq!(lenient.into_outcome(), Some(Ok(())));

    let mut strict = remove("x/.");
    assert_eq!(strict.request(), ask(Operation::Stat, "x"));
    strict.step(absent());
    assert_eq!(strict.into_outcome(), Some(Err(Error::NotFound)));
}

#[test]
fn a_failed_look_is_an_io_error() {
    let mut strict = remove("x");
    strict.step(Reply::Failed(denied()));
    assert_eq!(strict.into_outcome(), Some(Err(Error::IoError(denied()))));

    let mut lenient = ensure_removed("x");
    lenient.step(Reply::Failed(denied()));
    assert_eq!(lenient.request(), ask(Operation::Stat, "x"));
    lenient.step(Reply::Failed(denied()));
    assert_eq!(lenient.into_outcome(), Some(Err(Error::IoError(denied()))));
}

#[test]
fn a_file_is_normalized_inspected_and_unlinked() {
    let mut removal = remove("dir//file");
    assert_eq!(removal.request(), ask(Operation::Stat, "dir/file"));
    removal.step(Reply::Entry { is_dir: false });
    assert_eq!(removal.request(), ask(Operation::FixPermissions, "dir/file"));
    removal.step(Reply::Done);
    assert_eq!(removal.request(), ask(Operation::Stat, "dir/file"));
    removal.step(Reply::Entry { is_dir: false });
    assert_eq!(removal.request(), ask(Operation::RemoveFile, "dir/file"));
    assert!(!removal.is_finished());
    removal.step(Reply::Done);
    assert!(removal.is_finished());
    assert_eq!(removal.request(), None);
    assert_eq!(removal.into_outcome(), Some(Ok(())));
}

#[test]
fn an_empty_directory_is_removed_without_a_listing() {
    let mut host = Host::new();
    host.mkdir("d");
    assert_eq!(host.run(remove("d")), Ok(()));
    assert_eq!(host.asked_for(Operation::RemoveDir), vec!["d"]);
    assert!(host.asked_for(Operation::ReadDir).is_empty());
}

#[test]
fn children_are_removed_in_listing_order_before_their_directory() {
    let mut removal = remove("d");
    removal.step(Reply::Entry { is_dir: true });
    removal.step(Reply::Done);
    removal.step(Reply::Entry { is_dir: true });
    assert_eq!(removal.request(), ask(Operation::RemoveDir, "d"));
    removal.step(failure(FailureKind::Other, "Directory not empty (os error 39)"));
    assert_eq!(removal.request(), ask(Operation::ReadDir, "d"));
    removal.step(Reply::Children(vec![String::from("d/z"), String::from("d/a"), String::from("d/m")]));
    for child in ["d/z", "d/a", "d/m"] {
        assert_eq!(removal.request(), ask(Operation::FixPermissions, child));
        removal.step(Reply::Done);
        assert_eq!(removal.request(), ask(Operation::Stat, child));
        removal.step(Reply::Entry { is_dir: false });
        assert_eq!(removal.request(), ask(Operation::RemoveFile, child));
        removal.step(Reply::Done);
    }
    assert_eq!(removal.request(), ask(Operation::RemoveDir, "d"));
    removal.step(Reply::Done);
    assert_eq!(removal.into_outcome(), Some(Ok(())));
}

#[test]
fn an_empty_listing_leads_straight_to_the_second_removal_of_the_directory() {
    let mut removal = remove("d");
    removal.step(Reply::Entry { is_dir: true });
    removal.step(Reply::Done);
    removal.step(Reply::Entry { is_dir: true });
    removal.step(Reply::Failed(denied()));
    removal.step(Reply::Children(Vec::new()));
    assert_eq!(removal.request(), ask(Operation::RemoveDir, "d"));
    removal.step(Reply::Failed(denied()));
    assert_eq!(removal.into_outcome(), Some(Err(Error::IoError(denied()))));
}

#[test]
fn a_tree_is_removed_bottom_up() {
    let mut host = Host::new();
    host.mkdir("a");
    host.mkdir("a/b");
    host.mkdir("a/b/c");
    host.touch("a/b/c/f");
    host.touch("beside");
    assert_eq!(host.run(remove("a")), Ok(()));
    assert!(host.nodes.keys().eq(["beside"]));
    assert_eq!(host.asked_for(Operation::RemoveFile), vec!["a/b/c/f"]);
    assert_eq!(host.asked_for(Operation::RemoveDir), vec!["a", "a/b", "a/b/c", "a/b/c", "a/b", "a"]);
    assert_eq!(host.asked_for(Operation::ReadDir), vec!["a", "a/b", "a/b/c"]);
}

#[test]
fn a_directory_that_cannot_be_listed_fails_the_removal_of_its_tree() {
    let mut host = Host::new();
    host.mkdir("a");
    host.mkdir("a/b");
    host.mkdir("a/b/c");
    host.touch("a/b/c/f");
    host.chmod(0, "a");
    assert_eq!(host.run(remove("a")), Err(Error::IoError(denied())));
    assert_eq!(host.nodes.len(), 4);
    assert_eq!(host.asked.last(), Some(&Request { operation: Operation::ReadDir, path: String::from("a") }));

    host.chmod(7, "a");
    assert_eq!(host.run(remove("a")), Ok(()));
    assert!(host.nodes.is_empty());
}

#[test]
fn the_first_failure_ends_the_removal_and_keeps_what_was_removed_removed() {
    let mut host = Host::new();
    host.mkdir("t");
    host.touch("t/a");
    host.mkdir("t/b");
    host.touch("t/b/x");
    host.touch("t/c");
    host.chmod(5, "t/b");
    assert_eq!(host.run(remove("t")), Err(Error::IoError(denied())));
    assert!(host.nodes.keys().eq(["t", "t/b", "t/b/x", "t/c"]));
    assert_eq!(host.asked.last(), Some(&Request { operation: Operation::RemoveFile, path: String::from("t/b/x") }));
}

#[test]
fn a_link_to_a_directory_inside_a_tree_is_removed_as_a_link() {
    let mut host = Host::new();
    host.mkdir("keep");
    host.touch("keep/data");
    host.mkdir("t");
    host.link("keep", "t/link");
    assert_eq!(host.run(remove("t")), Ok(()));
    assert!(host.nodes.keys().eq(["keep", "keep/data"]));
    assert!(host.asked.iter().all(|request| request.path.starts_with('t')));
}

#[test]
fn a_tree_thousands_of_levels_deep_is_removed() {
    let mut host = Host::new();
    let mut path = String::from("deep");
    host.mkdir(&path);
    for _ in 0..5000 {
        path.push_str("/d");
        host.mkdir(&path);
    }
    path.push_str("/leaf");
    host.touch(&path);
    assert_eq!(host.nodes.len(), 5002);
    assert_eq!(host.run(remove("deep")), Ok(()));
    assert!(host.nodes.is_empty());
}

#[test]
fn an_answer_of_the_wrong_form_is_ignored() {
    let mut removal = remove("x");
    removal.step(Reply::Done);
    removal.step(Reply::Children(vec![String::from("y")]));
    assert_eq!(removal.request(), ask(Operation::Stat, "x"));
    removal.step(Reply::Entry { is_dir: false });
    removal.step(Reply::Entry { is_dir: true });
    removal.step(Reply::Children(Vec::new()));
    assert_eq!(removal.request(), ask(Operation::FixPermissions, "x"));
    removal.step(Reply::Done);
    removal.step(Reply::Done);
    assert_eq!(removal.request(), ask(Operation::Stat, "x"));
    removal.step(Reply::Entry { is_dir: false });
    removal.step(Reply::Entry { is_dir: true });
    assert_eq!(removal.request(), ask(Operation::RemoveFile, "x"));

    let mut lenient = ensure_removed("x");
    lenient.step(Reply::Done);
    assert_eq!(lenient.request(), ask(Operation::Stat, "x"));
}

#[test]
fn a_finished_removal_stays_finished() {
    let mut refused = remove(".");
    assert!(refused.is_finished());
    refused.step(Reply::Done);
    refused.step(Reply::Entry { is_dir: false });
    assert_eq!(refused.request(), None);
    assert_invalid_target(refused.into_outcome().unwrap());

    let mut done = ensure_removed("x");
    done.step(absent());
    done.step(Reply::Failed(denied()));
    assert_eq!(done.into_outcome(), Some(Ok(())));
}

#[test]
fn a_removal_in_progress_has_no_outcome() {
    assert_eq!(remove("x").into_outcome(), None);
    assert_eq!(ensure_removed("x").into_outcome(), None);
}

#[test]
fn a_failure_to_clear_attributes_ends_the_removal() {
    let mut removal = remove("x");
    removal.step(Reply::Entry { is_dir: false });
    removal.step(Reply::Failed(denied()));
    assert_eq!(removal.into_outcome(), Some(Err(Error::IoError(denied()))));
}

#[test]
fn a_removal_takes_at_most_five_answers_for_each_listed_entry_and_seven_more() {
    let mut host = Host::new();
    host.mkdir("t");
    for dir in ["t/a", "t/a/b", "t/c"] {
        host.mkdir(dir);
    }
    for file in ["t/a/b/x", "t/a/b/y", "t/a/z", "t/c/w", "t/v"] {
        host.touch(file);
    }
    assert_eq!(host.run(remove("t")), Ok(()));
    assert_eq!(host.listed, 8);
    // six answers for the target, five for each directory beneath it with
    // entries, three for each file
    assert_eq!(host.asked.len(), 6 + 3 * 5 + 5 * 3);
    assert!(host.asked.len() <= 6 + 5 * host.listed);

    let mut lenient = Host::new();
    lenient.mkdir("t");
    lenient.mkdir("t/empty");
    assert_eq!(lenient.run(ensure_removed("t")), Ok(()));
    assert_eq!(lenient.listed, 1);
    assert_eq!(lenient.asked.len(), 7 + 3);
    assert!(lenient.asked.len() <= 7 + 5 * lenient.listed);
}

#[test]
fn a_file_target_is_removed_alone() {
    let mut host = Host::new();
    host.mkdir("d");
    host.touch("d/f");
    host.touch("d/g");
    let before = host.nodes.clone();
    assert_eq!(host.run(remove("d/f")), Ok(()));
    let mut expected = before;
    expected.remove("d/f");
    assert_eq!(host.nodes, expected);
    assert!(host.asked.iter().all(|request| request.path == "d/f"));
    assert_eq!(
        host.asked.iter().map(|request| request.operation).collect::<Vec<_>>(),
        vec![Operation::Stat, Operation::FixPermissions, Operation::Stat, Operation::RemoveFile]
    );
}
