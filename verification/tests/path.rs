//! Request path resolution.

use envoy_files::path::{resolve_request_path, PathPolicy, RejectReason, ValidatedPath};

fn policy(serve_dotfiles: bool) -> PathPolicy {
    PathPolicy {
        serve_dotfiles,
        max_path_len: 4096,
    }
}

fn resolve_ok(raw: &str, policy: &PathPolicy) -> (String, bool) {
    match resolve_request_path(raw, policy) {
        ValidatedPath::Accept {
            relative,
            trailing_slash,
        } => (relative, trailing_slash),
        ValidatedPath::Reject(reason) => {
            panic!("expected Ok for {raw:?}, got Reject({reason:?})")
        }
    }
}

fn resolve_reject(raw: &str, policy: &PathPolicy) -> RejectReason {
    match resolve_request_path(raw, policy) {
        ValidatedPath::Accept { relative, .. } => {
            panic!("expected Reject for {raw:?}, got Ok({relative:?})")
        }
        ValidatedPath::Reject(reason) => reason,
    }
}

#[test]
fn root_path_is_empty_with_trailing_slash() {
    let (relative, trailing_slash) = resolve_ok("/", &policy(false));
    assert_eq!(relative, "");
    assert!(trailing_slash);
}

#[test]
fn valid_simple_path() {
    let (relative, trailing_slash) = resolve_ok("/valid/path.txt", &policy(false));
    assert_eq!(relative, "valid/path.txt");
    assert!(!trailing_slash);
}

#[test]
fn double_slash_collapses() {
    let (relative, _) = resolve_ok("/a//b", &policy(false));
    assert_eq!(relative, "a/b");
}

#[test]
fn dot_segment_is_dropped() {
    let (relative, _) = resolve_ok("/./a", &policy(false));
    assert_eq!(relative, "a");
}

#[test]
fn trailing_slash_preserved() {
    let (relative, trailing_slash) = resolve_ok("/a/", &policy(false));
    assert_eq!(relative, "a");
    assert!(trailing_slash);
}

#[test]
fn query_string_is_stripped() {
    let (relative, trailing_slash) = resolve_ok("/a/b?x=1&y=2", &policy(false));
    assert_eq!(relative, "a/b");
    assert!(!trailing_slash);
}

#[test]
fn fragment_is_stripped() {
    let (relative, _) = resolve_ok("/a/b#section", &policy(false));
    assert_eq!(relative, "a/b");
}

#[test]
fn percent_decoding_inside_segment() {
    let (relative, _) = resolve_ok("/hello%20world.txt", &policy(false));
    assert_eq!(relative, "hello world.txt");
}

#[test]
fn dotfiles_allowed_when_policy_enables() {
    let (relative, _) = resolve_ok("/.well-known/foo", &policy(true));
    assert_eq!(relative, ".well-known/foo");
}

#[test]
fn dotfiles_rejected_by_default() {
    assert_eq!(
        resolve_reject("/.well-known/foo", &policy(false)),
        RejectReason::Dotfile
    );
}

#[test]
fn simple_traversal_rejected() {
    assert_eq!(
        resolve_reject("/../etc/passwd", &policy(false)),
        RejectReason::Traversal
    );
}

#[test]
fn nested_traversal_rejected() {
    assert_eq!(
        resolve_reject("/a/../../b", &policy(false)),
        RejectReason::Traversal
    );
}

#[test]
fn encoded_traversal_lowercase_rejected() {
    assert_eq!(
        resolve_reject("/a/%2e%2e/b", &policy(false)),
        RejectReason::Traversal
    );
}

#[test]
fn encoded_traversal_uppercase_rejected() {
    assert_eq!(
        resolve_reject("/a/%2E%2E/b", &policy(false)),
        RejectReason::Traversal
    );
}

#[test]
fn fully_encoded_traversal_rejected() {
    assert_eq!(
        resolve_reject("/%2e%2e%2f", &policy(false)),
        RejectReason::Traversal
    );
}

#[test]
fn encoded_slash_before_traversal_rejected() {
    // "..%2fb" decodes within a single segment to "../b", which
    // contains a decoded '/' and is rejected as Traversal before the
    // ".." check even runs.
    assert_eq!(
        resolve_reject("/a/..%2fb", &policy(false)),
        RejectReason::Traversal
    );
}

#[test]
fn encoded_slash_prefix_rejected() {
    assert_eq!(
        resolve_reject("/a%2f..%2fb", &policy(false)),
        RejectReason::Traversal
    );
}

#[test]
fn windows_reserved_name_bare() {
    assert_eq!(
        resolve_reject("/a/con.txt", &policy(false)),
        RejectReason::BadCharacter
    );
    assert_eq!(
        resolve_reject("/a/aux", &policy(false)),
        RejectReason::BadCharacter
    );
    assert_eq!(
        resolve_reject("/lpt9.tar.gz", &policy(false)),
        RejectReason::BadCharacter
    );
    assert_eq!(
        resolve_reject("/CON", &policy(false)),
        RejectReason::BadCharacter
    );
    assert_eq!(
        resolve_reject("/com1.tar.gz", &policy(false)),
        RejectReason::BadCharacter
    );
}

#[test]
fn similar_but_not_reserved_name_is_fine() {
    let (relative, _) = resolve_ok("/console.txt", &policy(false));
    assert_eq!(relative, "console.txt");
}

#[test]
fn backslash_rejected() {
    assert_eq!(
        resolve_reject("/a\\b", &policy(false)),
        RejectReason::BadCharacter
    );
}

#[test]
fn encoded_backslash_rejected() {
    assert_eq!(
        resolve_reject("/a%5cb", &policy(false)),
        RejectReason::BadCharacter
    );
}

#[test]
fn ntfs_ads_colon_rejected() {
    assert_eq!(
        resolve_reject("/file.txt:$DATA", &policy(false)),
        RejectReason::BadCharacter
    );
}

#[test]
fn dotfile_deep_path_rejected() {
    assert_eq!(
        resolve_reject("/a/.git/config", &policy(false)),
        RejectReason::Dotfile
    );
}

#[test]
fn nul_byte_rejected() {
    assert_eq!(
        resolve_reject("/%00", &policy(false)),
        RejectReason::BadCharacter
    );
    assert_eq!(
        resolve_reject("/a%00b", &policy(false)),
        RejectReason::BadCharacter
    );
}

#[test]
fn too_long_path_rejected() {
    let long_path = format!("/{}", "a".repeat(5000));
    assert_eq!(
        resolve_reject(&long_path, &policy(false)),
        RejectReason::TooLong
    );
}

#[test]
fn malformed_escape_passes_through_literally() {
    // A `%` not followed by two hex digits is not a valid escape; the
    // `percent-encoding` crate leaves it literal, so it becomes an
    // ordinary (nonexistent) filename rather than a hard rejection.
    assert_eq!(resolve_ok("/%zz", &policy(false)).0, "%zz");
    assert_eq!(resolve_ok("/%2", &policy(false)).0, "%2");
    assert_eq!(resolve_ok("/%", &policy(false)).0, "%");
}

#[test]
fn segment_ending_in_dot_rejected() {
    assert_eq!(
        resolve_reject("/foo./bar", &policy(false)),
        RejectReason::BadCharacter
    );
}

#[test]
fn segment_ending_in_space_rejected() {
    assert_eq!(
        resolve_reject("/foo /bar", &policy(false)),
        RejectReason::BadCharacter
    );
}

#[test]
fn control_char_rejected() {
    assert_eq!(
        resolve_reject("/a%01b", &policy(false)),
        RejectReason::BadCharacter
    );
}

#[test]
fn single_dot_segment_is_not_treated_as_dotfile() {
    // "." is dropped entirely before the dotfile check even runs.
    let (relative, _) = resolve_ok("/./valid.txt", &policy(false));
    assert_eq!(relative, "valid.txt");
}

#[test]
fn double_dot_alone_is_traversal_even_with_dotfiles_allowed() {
    assert_eq!(
        resolve_reject("/..", &policy(true)),
        RejectReason::Traversal
    );
}

#[test]
fn invalid_utf8_after_decode_rejected() {
    // %FF is not valid standalone UTF-8.
    assert_eq!(
        resolve_reject("/%ff", &policy(false)),
        RejectReason::BadEncoding
    );
}

#[test]
fn resolved_paths_have_only_plain_segments() {
    let policy = policy(true);
    for raw in ["/a/./b//c/", "a", "//x", "/%41/%2e/y?q#f", "/.a/b.c#/../"] {
        let (relative, _) = resolve_ok(raw, &policy);
        assert!(!relative.starts_with('/'));
        for segment in relative.split('/') {
            assert!(!segment.is_empty() && segment != "." && segment != "..");
        }
    }
    assert_eq!(resolve_ok("/%41/%2e/y?q#f", &policy).0, "A/y");
}

#[test]
fn first_rejected_segment_gives_the_reason() {
    let policy = policy(false);
    assert_eq!(resolve_reject("/.a/%ff", &policy), RejectReason::Dotfile);
    assert_eq!(resolve_reject("/%ff/.a", &policy), RejectReason::BadEncoding);
    assert_eq!(resolve_reject("/a:/..", &policy), RejectReason::BadCharacter);
}

#[test]
fn path_length_counts_bytes_and_the_query() {
    let policy = PathPolicy { serve_dotfiles: false, max_path_len: 4 };
    assert_eq!(resolve_ok("/abc", &policy).0, "abc");
    assert_eq!(resolve_reject("/ab?x", &policy), RejectReason::TooLong);
    assert_eq!(resolve_ok("/aü", &policy).0, "aü");
    assert_eq!(resolve_reject("/üü", &policy), RejectReason::TooLong);
}
