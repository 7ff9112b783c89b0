//! Mapping from filesystem errors to HTTP status codes.

use crate::document::same_text;
use crate::message::StatusCode;
use vstd::prelude::*;

verus! {

/// The number for `ELOOP` ("too many levels of symbolic links"), which is that
/// of Linux. Used only as a fallback when the kind of an error isn't informative
/// enough. [`portable_errno`] brings the numbers of other systems to it.
pub const ELOOP: i32 = 40;

/// The `errno` value for `ELOOP` on an operating system, which differs across
/// platforms. Those without one that is known have a number that is no `errno`.
pub open spec fn link_loop_errno(os: Seq<char>) -> i32 {
    if os == "linux"@ {
        40
    } else if os == "macos"@ {
        62
    } else {
        -1i32
    }
}

/// The kinds of filesystem errors that are told apart.
#[derive(Debug, Clone, Copy, PartialEq, Eq, Structural)]
pub enum ErrorKind {
    NotFound,
    PermissionDenied,
    NotADirectory,
    IsADirectory,
    Other,
}

/// The status for an I/O error.
pub open spec fn error_status(kind: ErrorKind, raw_os_error: Option<i32>) -> StatusCode {
    match kind {
        ErrorKind::NotFound => StatusCode::NOT_FOUND,
        ErrorKind::PermissionDenied => StatusCode::FORBIDDEN,
        ErrorKind::NotADirectory => StatusCode::NOT_FOUND,
        ErrorKind::IsADirectory => StatusCode::FORBIDDEN,
        ErrorKind::Other => if raw_os_error == Some(ELOOP) {
            StatusCode::FORBIDDEN
        } else {
            StatusCode::INTERNAL_SERVER_ERROR
        },
    }
}

/// The status for an I/O error whose number is that of an operating system.
pub open spec fn error_status_on(
    os: Seq<char>,
    kind: ErrorKind,
    raw_os_error: Option<i32>,
) -> StatusCode {
    match kind {
        ErrorKind::Other => if raw_os_error == Some(link_loop_errno(os)) {
            StatusCode::FORBIDDEN
        } else {
            StatusCode::INTERNAL_SERVER_ERROR
        },
        _ => error_status(kind, None),
    }
}

/// Brings the number of an error on an operating system to that which
/// [`status_for_io_error`] knows, so that every error has the status that it
/// has on that system.
pub fn portable_errno(os: &str, raw_os_error: Option<i32>) -> (res: Option<i32>)
    ensures
        forall|kind: ErrorKind| #[trigger]
            error_status(kind, res) == error_status_on(os@, kind, raw_os_error),
        raw_os_error != Some(ELOOP) && raw_os_error != Some(link_loop_errno(os@)) ==> res
            == raw_os_error,
{
    let link_loop: i32 = if same_text(os, "linux") {
        40
    } else if same_text(os, "macos") {
        62
    } else {
        -1
    };
    match raw_os_error {
        Some(errno) => if errno == link_loop {
            Some(ELOOP)
        } else if errno == ELOOP {
            None
        } else {
            Some(errno)
        },
        None => None,
    }
}

/// Maps an I/O error observed while resolving/serving a file to the HTTP
/// status code that should be returned for it.
///
/// Note: `IsADirectory` is included for completeness, but callers normally
/// intercept directory requests earlier (to redirect or list them) and
/// won't see this from a plain read attempt.
pub fn status_for_io_error(kind: ErrorKind, raw_os_error: Option<i32>) -> (res: StatusCode)
    ensures
        res == error_status(kind, raw_os_error),
{
    match kind {
        ErrorKind::NotFound => StatusCode::NOT_FOUND,
        ErrorKind::PermissionDenied => StatusCode::FORBIDDEN,
        ErrorKind::NotADirectory => StatusCode::NOT_FOUND,
        ErrorKind::IsADirectory => StatusCode::FORBIDDEN,
        ErrorKind::Other => {
            if let Some(errno) = raw_os_error {
                if errno == ELOOP {
                    return StatusCode::FORBIDDEN;
                }
            }
            StatusCode::INTERNAL_SERVER_ERROR
        },
    }
}

/// What is not there is answered 404, what may not be read 403, and every other
/// failure 500. A loop of links may not be read, by the number that it has on
/// the system, and no other number matters.
pub proof fn law_errors_are_told_apart(kind: ErrorKind, raw_os_error: Option<i32>, os: Seq<char>)
    ensures
        kind == ErrorKind::NotFound || kind == ErrorKind::NotADirectory <==> error_status(
            kind,
            raw_os_error,
        ).number() == 404,
        kind == ErrorKind::PermissionDenied || kind == ErrorKind::IsADirectory || (kind
            == ErrorKind::Other && raw_os_error == Some(40i32)) <==> error_status(
            kind,
            raw_os_error,
        ).number() == 403,
        kind == ErrorKind::Other && raw_os_error != Some(40i32) <==> error_status(
            kind,
            raw_os_error,
        ).number() == 500,
        error_status_on("linux"@, kind, raw_os_error) == error_status(kind, raw_os_error),
        error_status_on("macos"@, kind, Some(62i32)) == error_status(kind, Some(40i32)),
        kind != ErrorKind::Other ==> error_status_on(os, kind, raw_os_error) == error_status(
            kind,
            raw_os_error,
        ),
        raw_os_error is None ==> error_status_on(os, kind, raw_os_error) == error_status(
            kind,
            raw_os_error,
        ),
        error_status_on("macos"@, ErrorKind::Other, raw_os_error).number() == if raw_os_error
            == Some(62i32) {
            403int
        } else {
            500int
        },
        os != "linux"@ && os != "macos"@ && (raw_os_error matches Some(errno) ==> errno >= 0)
            ==> error_status_on(os, ErrorKind::Other, raw_os_error).number() == 500,
{
    reveal_strlit("linux");
    reveal_strlit("macos");
    assert("linux"@[0] == 'l' && "macos"@[0] == 'm');
}

} // verus!
