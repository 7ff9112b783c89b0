//! Statuses of filesystem errors.

use envoy_files::error::{portable_errno, status_for_io_error, ErrorKind, ELOOP};
use envoy_files::message::StatusCode;

#[test]
fn not_found_maps_to_404() {
    assert_eq!(
        status_for_io_error(ErrorKind::NotFound, None),
        StatusCode::NOT_FOUND
    );
}

#[test]
fn permission_denied_maps_to_403() {
    assert_eq!(
        status_for_io_error(ErrorKind::PermissionDenied, None),
        StatusCode::FORBIDDEN
    );
}

#[test]
fn not_a_directory_maps_to_404() {
    assert_eq!(
        status_for_io_error(ErrorKind::NotADirectory, None),
        StatusCode::NOT_FOUND
    );
}

#[test]
fn is_a_directory_maps_to_403() {
    assert_eq!(
        status_for_io_error(ErrorKind::IsADirectory, None),
        StatusCode::FORBIDDEN
    );
}

#[test]
fn eloop_errno_maps_to_403() {
    assert_eq!(
        status_for_io_error(ErrorKind::Other, Some(ELOOP)),
        StatusCode::FORBIDDEN
    );
}

#[test]
fn unknown_error_maps_to_500() {
    assert_eq!(
        status_for_io_error(ErrorKind::Other, None),
        StatusCode::INTERNAL_SERVER_ERROR
    );
    assert_eq!(
        status_for_io_error(ErrorKind::Other, Some(9999)),
        StatusCode::INTERNAL_SERVER_ERROR
    );
}

#[test]
fn unrelated_kind_with_eloop_errno_still_maps_via_kind_first() {
    // NotFound takes priority over any raw_os_error interpretation.
    assert_eq!(
        status_for_io_error(ErrorKind::NotFound, Some(ELOOP)),
        StatusCode::NOT_FOUND
    );
}

#[test]
fn link_loops_have_their_number_on_each_system() {
    for (os, errno, loops) in [
        ("linux", 40, true),
        ("linux", 62, false),
        ("macos", 62, true),
        ("macos", 40, false),
        ("windows", 40, false),
        ("windows", 62, false),
    ] {
        let status = status_for_io_error(ErrorKind::Other, portable_errno(os, Some(errno)));
        let expected =
            if loops { StatusCode::FORBIDDEN } else { StatusCode::INTERNAL_SERVER_ERROR };
        assert_eq!(status, expected);
    }
    assert_eq!(portable_errno("macos", Some(5)), Some(5));
    assert_eq!(portable_errno("linux", None), None);
}
