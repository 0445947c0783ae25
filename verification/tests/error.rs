use rm_rf::Error;
use rm_rf::FailureKind;
use rm_rf::IoFailure;

fn denied() -> IoFailure {
    IoFailure { kind: FailureKind::PermissionDenied, message: String::from("Permission denied (os error 13)") }
}

#[test]
fn messages_describe_each_error() {
    assert_eq!(Error::NotFound.message(), "path not found");
    assert_eq!(Error::InvalidTarget(String::from("no such thing")).message(), "no such thing");
    assert_eq!(Error::IoError(denied()).message(), "Permission denied (os error 13)");
}

#[test]
fn only_an_io_error_has_a_source() {
    assert_eq!(Error::NotFound.source(), None);
    assert_eq!(Error::InvalidTarget(String::from("x")).source(), None);
    assert_eq!(Error::IoError(denied()).source(), Some(&denied()));
}

#[test]
fn an_io_failure_converts_to_an_io_error() {
    assert_eq!(Error::from(denied()), Error::IoError(denied()));
    let converted: Error = denied().into();
    assert_eq!(converted, Error::IoError(denied()));
}

#[test]
fn only_the_not_found_kind_is_not_found() {
    assert!(IoFailure { kind: FailureKind::NotFound, message: String::new() }.is_not_found());
    assert!(!denied().is_not_found());
    assert!(!IoFailure { kind: FailureKind::Other, message: String::new() }.is_not_found());
}
