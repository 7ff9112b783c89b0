//! Configuration parsing.

use envoy_files::config::{parse, Config, DirectoryMode, RangeSupport, RootStatus};
use envoy_files::encoding::Encoding;
use std::path::PathBuf;

fn root_dir() -> String {
    "/tmp".to_string()
}

fn load(raw: &[u8]) -> Result<Config, String> {
    let draft = parse(raw)?;
    let status = if draft.root == root_dir() {
        RootStatus::Directory(PathBuf::from(&draft.root))
    } else {
        RootStatus::Inaccessible {
            quoted: format!("{:?}", draft.root),
            reason: "No such file or directory (os error 2)".to_string(),
        }
    };
    draft.finish(status)
}

#[test]
fn defaults() {
    let config = load(format!(r#"{{"root": "{}"}}"#, root_dir()).as_bytes()).unwrap();
    assert_eq!(config.index_files, vec!["index.html"]);
    assert_eq!(config.directory, DirectoryMode::Index);
    assert_eq!(config.chunk_size, 65536);
    assert_eq!(config.max_inflight_reads, 2);
    assert_eq!(config.ranges, RangeSupport::Multi);
    assert_eq!(config.precompressed, vec![Encoding::brotli(), Encoding::gzip()]);
    assert!(config.etag);
    assert!(!config.serve_dotfiles);
}

#[test]
fn json_is_accepted_as_yaml() {
    let raw = format!(
        r#"{{"root": "{}", "directory": "listing", "ranges": "single", "chunk_size": 8192}}"#,
        root_dir()
    );
    let config = load(raw.as_bytes()).unwrap();
    assert_eq!(config.directory, DirectoryMode::Listing);
    assert_eq!(config.ranges, RangeSupport::Single);
    assert_eq!(config.chunk_size, 8192);
}

#[test]
fn strip_prefix_is_normalized() {
    let root = root_dir();
    let cfg = |v: &str| {
        load(format!(r#"{{"root": "{root}", "strip_prefix": "{v}"}}"#).as_bytes()).unwrap()
    };
    assert_eq!(cfg("/static/").strip_prefix.as_deref(), Some("/static"));
    assert_eq!(cfg("/static").strip_prefix.as_deref(), Some("/static"));
    assert_eq!(cfg("static").strip_prefix.as_deref(), Some("/static"));
    assert_eq!(cfg("/a/b/").strip_prefix.as_deref(), Some("/a/b"));
    // Absent, empty, and "/" are handled distinctly.
    assert_eq!(
        load(format!(r#"{{"root": "{root}"}}"#).as_bytes())
            .unwrap()
            .strip_prefix,
        None
    );
    assert!(load(format!(r#"{{"root": "{root}", "strip_prefix": "/"}}"#).as_bytes()).is_err());
}

#[test]
fn rejections() {
    assert!(load(b"{}").is_err());
    assert!(load(b"[]").is_err());
    let root = root_dir();
    assert!(load(format!(r#"{{"root": "{root}", "nope": 1}}"#).as_bytes()).is_err());
    assert!(load(format!(r#"{{"root": "{root}", "chunk_size": 1}}"#).as_bytes()).is_err());
    assert!(load(format!(r#"{{"root": "{root}", "directory": "bogus"}}"#).as_bytes()).is_err());
    assert!(load(br#"{"root": "/definitely/not/a/real/dir"}"#).is_err());
}

fn message(settings: &str) -> String {
    load(format!("root: /tmp\n{settings}\n").as_bytes()).unwrap_err()
}

#[test]
fn each_mistake_has_its_message() {
    assert_eq!(load(b"\xff").unwrap_err(), "config is not valid UTF-8");
    assert!(load(b"a: [").unwrap_err().starts_with("config is not valid YAML: "));
    assert_eq!(load(b"").unwrap_err(), "config is empty");
    assert_eq!(load(b"- a").unwrap_err(), "config must be a map");
    assert_eq!(load(b"1: a").unwrap_err(), "config keys must be strings");
    assert_eq!(load(b"nope: a").unwrap_err(), "unknown config key: nope");
    assert_eq!(load(b"etag: true").unwrap_err(), "missing required config key: root");
    assert_eq!(load(b"root: 5").unwrap_err(), "missing required config key: root");
    assert_eq!(
        load(b"root: /nowhere\nchunk_size: 1").unwrap_err(),
        "root \"/nowhere\" is not accessible: No such file or directory (os error 2)"
    );
    assert_eq!(
        parse(b"root: /tmp\nchunk_size: 1")
            .unwrap()
            .finish(RootStatus::NotADirectory { quoted: "\"/tmp\"".to_string() })
            .unwrap_err(),
        "root \"/tmp\" is not a directory"
    );
    assert_eq!(
        message("strip_prefix: ///"),
        "strip_prefix must be a non-empty path prefix"
    );
    assert_eq!(message("strip_prefix: 1"), "strip_prefix must be a string");
    assert_eq!(message("strip_prefix: ~"), "strip_prefix must be a string");
    assert_eq!(message("index_files: x"), "index_files must be a list");
    assert_eq!(message("index_files: [a, 1]"), "index_files entries must be strings");
    assert_eq!(message("directory: x"), "unknown directory mode: x");
    assert_eq!(message("ranges: x"), "unknown ranges mode: x");
    assert_eq!(message("precompressed: x"), "precompressed must be a list");
    assert_eq!(
        message("precompressed: [br, lzma]"),
        "precompressed entries must be br, gzip, or zstd"
    );
    assert_eq!(message("mime_overrides: [a]"), "mime_overrides must be a map");
    assert_eq!(
        message("mime_overrides: {a: 1}"),
        "mime_overrides must map strings to strings"
    );
    assert_eq!(
        message("chunk_size: 4095"),
        "chunk_size must be an integer in 4096..=4194304"
    );
    assert_eq!(
        message("chunk_size: big"),
        "chunk_size must be an integer in 4096..=4194304"
    );
    assert_eq!(
        message("max_inflight_reads: 9"),
        "max_inflight_reads must be an integer in 1..=8"
    );
    assert_eq!(
        message("blocking_threads: 0"),
        "blocking_threads must be an integer in 1..=256"
    );
    assert_eq!(message("etag: 1"), "etag must be a boolean");
    assert_eq!(message("last_modified: x"), "last_modified must be a boolean");
}

#[test]
fn first_mistake_is_reported() {
    assert_eq!(
        message("etag: 1\nranges: x\nstrip_prefix: 1"),
        "strip_prefix must be a string"
    );
    assert_eq!(message("etag: 1\nserve_dotfiles: 1"), "serve_dotfiles must be a boolean");
}

#[test]
fn every_setting_is_taken_over() {
    let raw = "root: /tmp\n\
               strip_prefix: files\n\
               index_files: [a.html, b.html]\n\
               directory: deny\n\
               redirect_trailing_slash: false\n\
               follow_symlinks_within_root: false\n\
               serve_dotfiles: true\n\
               chunk_size: 4096\n\
               max_inflight_reads: 8\n\
               blocking_threads: 256\n\
               force_blocking: true\n\
               etag: false\n\
               last_modified: false\n\
               ranges: none\n\
               precompressed: [zstd, br]\n\
               mime_overrides: {wasm: application/x-wasm, .foo: text/foo}\n\
               default_content_type: text/plain\n\
               cache_control: no-store\n";
    let config = load(raw.as_bytes()).unwrap();
    assert_eq!(config.root, PathBuf::from("/tmp"));
    assert_eq!(config.strip_prefix.as_deref(), Some("/files"));
    assert_eq!(config.index_files, vec!["a.html", "b.html"]);
    assert_eq!(config.directory, DirectoryMode::Deny);
    assert!(!config.redirect_trailing_slash);
    assert!(!config.follow_symlinks_within_root);
    assert!(config.serve_dotfiles);
    assert_eq!(config.chunk_size, 4096);
    assert_eq!(config.max_inflight_reads, 8);
    assert_eq!(config.blocking_threads, Some(256));
    assert!(config.force_blocking);
    assert!(!config.etag);
    assert!(!config.last_modified);
    assert_eq!(config.ranges, RangeSupport::Off);
    assert_eq!(config.precompressed, vec![Encoding::zstd(), Encoding::brotli()]);
    assert_eq!(
        config.mime_overrides,
        vec![
            ("wasm".to_string(), "application/x-wasm".to_string()),
            (".foo".to_string(), "text/foo".to_string()),
        ]
    );
    assert_eq!(config.default_content_type, "text/plain");
    assert_eq!(config.cache_control.as_deref(), Some("no-store"));
}
