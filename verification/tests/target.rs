use rm_rf::target::resolve;
use rm_rf::Error;

const NO_PARENT: &str = "Invalid path, cannot get parent";
const DOT_SEGMENT: &str = "Invalid path, last path segment cannot be \".\" or \"..\"";

fn ok(path: &str) -> String {
    match resolve(path) {
        Ok(target) => target,
        Err(error) => panic!("{:?} was refused: {:?}", path, error),
    }
}

fn refused(path: &str) -> String {
    match resolve(path) {
        Err(Error::InvalidTarget(reason)) => reason,
        other => panic!("{:?} was not refused as a target: {:?}", path, other),
    }
}

#[test]
fn plain_names_resolve_to_themselves() {
    assert_eq!(ok("x"), "x");
    assert_eq!(ok("a/b/c"), "a/b/c");
    assert_eq!(ok("/a"), "/a");
    assert_eq!(ok("/a/b"), "/a/b");
    assert_eq!(ok("..."), "...");
    assert_eq!(ok(".hidden"), ".hidden");
    assert_eq!(ok("a/..b"), "a/..b");
}

#[test]
fn trailing_dot_is_resolved_away() {
    assert_eq!(ok("x/."), "x");
    assert_eq!(ok("dotdir/."), "dotdir");
    assert_eq!(ok("a/b/./."), "a/b");
    assert_eq!(ok("/a/."), "/a");
}

#[test]
fn trailing_and_doubled_separators_are_dropped_around_the_last_component() {
    assert_eq!(ok("x/"), "x");
    assert_eq!(ok("a/b///"), "a/b");
    assert_eq!(ok("a//b"), "a/b");
    assert_eq!(ok("a/./b"), "a/b");
    assert_eq!(ok("a/.//./b/./"), "a/b");
    assert_eq!(ok("//a"), "/a");
    assert_eq!(ok("/./a"), "/a");
    assert_eq!(ok("///a//"), "/a");
}

#[test]
fn components_before_the_last_stand_as_written() {
    assert_eq!(ok("a/../b"), "a/../b");
    assert_eq!(ok("../x"), "../x");
    assert_eq!(ok("./a"), "./a");
    assert_eq!(ok(".//a"), "./a");
    assert_eq!(ok("a//b/./c/d"), "a//b/./c/d");
    assert_eq!(ok("/a//b/c/"), "/a//b/c");
    assert_eq!(ok("../../x/."), "../../x");
}

#[test]
fn characters_outside_ascii_are_kept() {
    assert_eq!(ok("d\u{e9}j\u{e0}/v\u{fc}/."), "d\u{e9}j\u{e0}/v\u{fc}");
    assert_eq!(ok("\u{1F600}"), "\u{1F600}");
    assert_eq!(ok("\u{1F600}//\u{4e2d}\u{6587}/"), "\u{1F600}/\u{4e2d}\u{6587}");
}

#[test]
fn dot_and_dot_dot_are_refused() {
    assert_eq!(refused("."), DOT_SEGMENT);
    assert_eq!(refused(".."), DOT_SEGMENT);
    assert_eq!(refused("x/.."), DOT_SEGMENT);
    assert_eq!(refused("parentdirtest/.."), DOT_SEGMENT);
    assert_eq!(refused("./"), DOT_SEGMENT);
    assert_eq!(refused("./."), DOT_SEGMENT);
    assert_eq!(refused("../"), DOT_SEGMENT);
    assert_eq!(refused("a/b/../."), DOT_SEGMENT);
    assert_eq!(refused("/.."), DOT_SEGMENT);
}

#[test]
fn paths_without_a_parent_are_refused() {
    assert_eq!(refused(""), NO_PARENT);
    assert_eq!(refused("/"), NO_PARENT);
    assert_eq!(refused("//"), NO_PARENT);
    assert_eq!(refused("/."), NO_PARENT);
    assert_eq!(refused("/./."), NO_PARENT);
}

#[test]
fn canonical_forms_resolve_to_themselves() {
    for path in ["x/.", "a//b/./", "//a", ".//a", "a/../b/", "/a//b/c/", "../../x/.", "./a/./b//"] {
        let canonical = ok(path);
        assert_eq!(ok(&canonical), canonical, "the canonical form of {:?}", path);
    }
    assert_eq!(ok("./a/./b//"), "./a/b");
}
