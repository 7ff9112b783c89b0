//! Whole requests against a document root held in memory.

use envoy_files::config::{parse, Config, RootStatus};
use envoy_files::error::ErrorKind;
use envoy_files::eventbridge::EventBridge;
use envoy_files::filter::{Action, Filter, OpenCtx, PumpStep, RequestHead};
use envoy_files::fixtures::{big_file, fixture_files, BIG_FILE_BYTES};
use envoy_files::harness::Response;
use envoy_files::io::{check_containment, DirEntryInfo, FileStat, IoError};
use std::collections::{BTreeMap, BTreeSet};
use std::io::Read;
use std::path::PathBuf;
use std::sync::{Arc, OnceLock};

/// The modification time of every file.
const MTIME: i64 = 784_111_777;

fn parse_quality(text: &str) -> Option<u32> {
    text.parse::<f32>().ok().map(f32::to_bits)
}

fn configure(settings: &str) -> Arc<Config> {
    let draft = parse(format!("{{\"root\": \"/www\", {settings}}}").as_bytes()).unwrap();
    Arc::new(draft.finish(RootStatus::Directory(PathBuf::from("/www"))).unwrap())
}

/// A document root in memory.
struct Tree {
    files: BTreeMap<String, Vec<u8>>,
    /// Files whose canonical location is outside the root.
    outside: BTreeSet<String>,
}

impl Tree {
    fn small() -> Tree {
        let mut files: BTreeMap<String, Vec<u8>> = fixture_files().into_iter().collect();
        let hello = files["hello.txt"].clone();
        files.insert("inside-link.txt".to_string(), hello);
        files.insert("escape.txt".to_string(), b"outside".to_vec());
        let outside = BTreeSet::from(["escape.txt".to_string()]);
        Tree { files, outside }
    }

    fn stat(&self, path: &str) -> Result<FileStat, IoError> {
        let path = path.trim_end_matches('/');
        let inside = !self.outside.contains(path);
        if let Some(bytes) = self.files.get(path) {
            check_containment(Some(inside))?;
            return Ok(FileStat {
                size: bytes.len() as u64,
                mtime_unix: MTIME,
                mtime_nanos: 0,
                is_dir: false,
            });
        }
        let below = format!("{path}/");
        if path.is_empty() || self.files.keys().any(|k| k.starts_with(&below)) {
            return Ok(FileStat { size: 4096, mtime_unix: MTIME, mtime_nanos: 0, is_dir: true });
        }
        Err(IoError { kind: ErrorKind::NotFound, raw_os_error: Some(2) })
    }

    fn list(&self, path: &str) -> Vec<DirEntryInfo> {
        let below = if path.is_empty() { String::new() } else { format!("{path}/") };
        let mut names: BTreeSet<String> = BTreeSet::new();
        for key in self.files.keys() {
            if let Some(rest) = key.strip_prefix(&below) {
                names.insert(rest.split('/').next().unwrap().to_string());
            }
        }
        names
            .into_iter()
            .map(|name| {
                let stat = self.stat(&format!("{below}{name}")).unwrap_or(FileStat {
                    size: 7,
                    mtime_unix: MTIME,
                    mtime_nanos: 0,
                    is_dir: false,
                });
                DirEntryInfo {
                    name,
                    is_dir: stat.is_dir,
                    size: stat.size,
                    mtime_unix: stat.mtime_unix,
                }
            })
            .collect()
    }
}

enum Event {
    Opened(FileStat, OpenCtx, Vec<u8>),
    OpenError(IoError),
    Dir(Vec<DirEntryInfo>),
    Read(usize, Vec<u8>),
}

/// One request being served.
struct Exchange<'a> {
    tree: &'a Tree,
    filter: Filter,
    bridge: EventBridge<Event>,
    open_path: String,
    response: Response,
    done: bool,
    reads: usize,
    max_buffered: usize,
    outstanding: usize,
    /// Whether reads complete in the reverse of the order they were issued in.
    reversed: bool,
}

impl<'a> Exchange<'a> {
    fn new(tree: &'a Tree, config: Arc<Config>) -> Exchange<'a> {
        Exchange {
            tree,
            filter: Filter::new(config),
            bridge: EventBridge::new(),
            open_path: String::new(),
            response: Response { status: 0, headers: Vec::new(), body: Vec::new() },
            done: false,
            reads: 0,
            max_buffered: 0,
            outstanding: 0,
            reversed: false,
        }
    }

    fn head(&mut self, status: u16, headers: Vec<(String, String)>) {
        assert_eq!(self.response.status, 0, "answered twice");
        self.response.status = status;
        self.response.headers = headers;
    }

    fn perform(&mut self, action: Action) {
        self.done = action.ends_stream();
        match action {
            Action::Wait => {}
            Action::Respond { status, headers, body } => {
                let fields =
                    headers.into_iter().map(|(n, v)| (n.as_str().to_string(), v)).collect();
                self.head(status.as_u16(), fields);
                self.response.body = body.unwrap_or_default().into_bytes();
            }
            Action::SendHead { status, headers, .. } => {
                let fields =
                    headers.into_iter().map(|(n, v)| (n.as_str().to_string(), v)).collect();
                self.head(status.as_u16(), fields);
            }
            Action::Open { relative, index, ctx, request } => {
                let root = &self.filter.config.root;
                let path = match index {
                    Some(name) if relative.is_empty() => name,
                    Some(name) => format!("{relative}/{name}"),
                    None => relative,
                };
                assert_eq!(request.path, root.join(&path));
                assert_eq!(request.containment_root.as_ref(), Some(root));
                assert_eq!(
                    request.deny_symlinks,
                    !self.filter.config.follow_symlinks_within_root
                );
                let event = match self.tree.stat(&path) {
                    Ok(stat) => {
                        let mut prefetch = Vec::new();
                        if !stat.is_dir {
                            let bytes = &self.tree.files[&path];
                            prefetch = bytes[..bytes.len().min(request.prefetch_len)].to_vec();
                        }
                        Event::Opened(stat, ctx, prefetch)
                    }
                    Err(error) => Event::OpenError(error),
                };
                self.open_path = path;
                assert!(self.bridge.send(event).is_ok());
            }
            Action::ReadDir { relative, path } => {
                assert_eq!(path, self.filter.config.root.join(&relative));
                let entries = self.tree.list(&relative);
                assert!(self.bridge.send(Event::Dir(entries)).is_ok());
            }
            Action::Truncate | Action::Fail => {}
        }
    }

    fn start(&mut self, method: &str, path: &str, headers: &[(&str, &str)]) {
        let find = |name: &str| {
            headers
                .iter()
                .find(|(k, _)| k.eq_ignore_ascii_case(name))
                .map(|(_, v)| v.as_bytes().to_vec())
        };
        let head = RequestHead {
            method: Some(method.as_bytes().to_vec()),
            path: Some(path.as_bytes().to_vec()),
            accept_encoding: find("accept-encoding"),
            if_none_match: find("if-none-match"),
            if_modified_since: find("if-modified-since"),
            if_match: find("if-match"),
            if_unmodified_since: find("if-unmodified-since"),
            if_range: find("if-range"),
            range: find("range"),
        };
        let action = self.filter.on_request_headers(head, parse_quality);
        self.perform(action);
    }

    /// Handles the pending events, then sends and reads what there is.
    fn turn(&mut self) {
        for event in self.bridge.process() {
            let action = match event {
                Event::Opened(stat, ctx, prefetch) => self.filter.on_opened(stat, ctx, prefetch),
                Event::OpenError(error) => self.filter.on_open_error(error),
                Event::Dir(entries) => self.filter.on_dir(Ok(entries)),
                Event::Read(seq, bytes) => {
                    self.outstanding -= 1;
                    self.filter.on_read(seq, Ok(bytes))
                }
            };
            self.perform(action);
            if self.done {
                return;
            }
        }
        self.pump();
    }

    fn pump(&mut self) {
        loop {
            match self.filter.pump() {
                PumpStep::Send { bytes, end_stream } => {
                    self.response.body.extend_from_slice(&bytes);
                    if end_stream {
                        self.done = true;
                        return;
                    }
                }
                PumpStep::Read(mut tasks) => {
                    self.outstanding += tasks.len();
                    self.max_buffered = self.max_buffered.max(self.outstanding);
                    if self.reversed {
                        tasks.reverse();
                    }
                    for task in tasks {
                        self.reads += 1;
                        let bytes = &self.tree.files[&self.open_path];
                        let at = task.offset as usize;
                        let data = bytes[at..at + task.len].to_vec();
                        assert!(self.bridge.send(Event::Read(task.seq, data)).is_ok());
                    }
                    return;
                }
                PumpStep::Idle => return,
            }
        }
    }

    fn run(mut self) -> Response {
        let mut turns = 0;
        while !self.done {
            turns += 1;
            assert!(turns < 1_000_000, "no progress");
            self.turn();
        }
        self.response
    }
}

struct Server {
    tree: Tree,
    config: Arc<Config>,
}

impl Server {
    fn with(settings: &str) -> Server {
        Server { tree: Tree::small(), config: configure(settings) }
    }

    fn get(&self, path: &str) -> Response {
        self.request("GET", path, &[])
    }

    fn request(&self, method: &str, path: &str, headers: &[(&str, &str)]) -> Response {
        let mut exchange = Exchange::new(&self.tree, self.config.clone());
        exchange.start(method, path, headers);
        exchange.run()
    }
}

fn server() -> Server {
    Server::with("\"directory\": \"listing\"")
}

fn big_contents() -> &'static Vec<u8> {
    static BIG: OnceLock<Vec<u8>> = OnceLock::new();
    BIG.get_or_init(|| big_file(BIG_FILE_BYTES))
}

fn big_server(settings: &str) -> Server {
    let mut server = Server::with(settings);
    server.tree.files.insert("big.bin".to_string(), big_contents().clone());
    server
}

#[test]
fn get_text_file() {
    let r = server().get("/hello.txt");
    assert_eq!(r.status, 200);
    assert_eq!(r.body, b"hello world\n");
    assert_eq!(r.header("content-type"), Some("text/plain"));
    assert_eq!(r.header("content-length"), Some("12"));
    assert_eq!(r.header("accept-ranges"), Some("bytes"));
    assert!(r.header("etag").unwrap().starts_with('"'));
    assert!(r.header("last-modified").is_some());
}

#[test]
fn head_matches_get_without_body() {
    let get = server().get("/hello.txt");
    let head = server().request("HEAD", "/hello.txt", &[]);
    assert_eq!(head.status, 200);
    assert!(head.body.is_empty());
    assert_eq!(head.header("content-length"), get.header("content-length"));
    assert_eq!(head.header("etag"), get.header("etag"));
}

#[test]
fn not_found() {
    assert_eq!(server().get("/nope.txt").status, 404);
}

#[test]
fn method_not_allowed() {
    let r = server().request("POST", "/hello.txt", &[]);
    assert_eq!(r.status, 405);
    assert_eq!(r.header("allow"), Some("GET, HEAD"));
}

#[test]
fn index_file_for_root() {
    let r = server().get("/");
    assert_eq!(r.status, 200);
    assert_eq!(r.body, b"<html>home</html>");
    assert_eq!(r.header("content-type"), Some("text/html"));
}

#[test]
fn directory_redirects_to_trailing_slash() {
    let r = server().get("/sub");
    assert_eq!(r.status, 301);
    assert_eq!(r.header("location"), Some("/sub/"));
}

#[test]
fn directory_index_file() {
    let r = server().get("/sub/");
    assert_eq!(r.status, 200);
    assert_eq!(r.body, b"<html>sub</html>");
}

#[test]
fn directory_listing_escapes_html() {
    let r = server().get("/listing-dir/");
    assert_eq!(r.status, 200);
    assert!(r.header("content-type").unwrap().starts_with("text/html"));
    let body = String::from_utf8_lossy(&r.body);
    assert!(!body.contains("<evil>"));
    assert!(body.contains("&lt;evil&gt;"));
    assert!(body.contains("a.txt"));
}

#[test]
fn dotfile_denied() {
    assert_eq!(server().get("/.secret").status, 404);
}

#[test]
fn traversal_rejected() {
    for path in [
        "/../hello.txt",
        "/%2e%2e/hello.txt",
        "/..%2fhello.txt",
        "/sub/%2e%2e/%2e%2e/hello.txt",
        "/con.txt",
        "/hello.txt%00",
        "/a%5cb.txt",
        "/file.txt:$DATA",
    ] {
        let status = server().get(path).status;
        assert!(status == 400 || status == 404, "path {path} gave {status}");
    }
}

#[test]
fn files_outside_the_root_are_denied() {
    let escape = server().get("/escape.txt").status;
    assert!(escape == 403 || escape == 404, "escape gave {escape}");
    let inside = server().get("/inside-link.txt");
    assert_eq!(inside.status, 200);
    assert_eq!(inside.body, b"hello world\n");
}

#[test]
fn big_file_streams_intact() {
    let r = big_server("\"directory\": \"listing\"").get("/big.bin");
    assert_eq!(r.status, 200);
    assert_eq!(r.header("content-length").unwrap().parse::<usize>().unwrap(), r.body.len());
    assert!(&r.body == big_contents());
}

#[test]
fn conditional_etag_304() {
    let etag = server().get("/hello.txt").header("etag").unwrap().to_string();
    let r = server().request("GET", "/hello.txt", &[("If-None-Match", &etag)]);
    assert_eq!(r.status, 304);
    assert!(r.body.is_empty());
    assert_eq!(r.header("etag"), Some(etag.as_str()));
}

#[test]
fn conditional_last_modified_304() {
    let last_modified = server().get("/hello.txt").header("last-modified").unwrap().to_string();
    let r = server().request("GET", "/hello.txt", &[("If-Modified-Since", &last_modified)]);
    assert_eq!(r.status, 304);
}

#[test]
fn if_match_mismatch_412() {
    let r = server().request("GET", "/hello.txt", &[("If-Match", "\"bogus\"")]);
    assert_eq!(r.status, 412);
}

#[test]
fn single_range() {
    let r = server().request("GET", "/data.bin", &[("Range", "bytes=0-9")]);
    assert_eq!(r.status, 206);
    assert_eq!(r.body, (0u8..10).collect::<Vec<u8>>());
    assert_eq!(r.header("content-range"), Some("bytes 0-9/10240"));
    assert_eq!(r.header("content-length"), Some("10"));
}

#[test]
fn files_suffix_range() {
    let r = server().request("GET", "/data.bin", &[("Range", "bytes=-16")]);
    assert_eq!(r.status, 206);
    assert_eq!(r.body, (240u8..=255).collect::<Vec<u8>>());
    assert_eq!(r.header("content-range"), Some("bytes 10224-10239/10240"));
}

#[test]
fn open_ended_range() {
    let r = server().request("GET", "/data.bin", &[("Range", "bytes=10200-")]);
    assert_eq!(r.status, 206);
    assert_eq!(r.body.len(), 40);
}

#[test]
fn range_unsatisfiable_416() {
    let r = server().request("GET", "/data.bin", &[("Range", "bytes=99999-")]);
    assert_eq!(r.status, 416);
    assert_eq!(r.header("content-range"), Some("bytes */10240"));
}

#[test]
fn multi_range_multipart() {
    let r = server().request("GET", "/data.bin", &[("Range", "bytes=0-1,4-5")]);
    assert_eq!(r.status, 206);
    let content_type = r.header("content-type").unwrap();
    let boundary = content_type
        .strip_prefix("multipart/byteranges; boundary=")
        .expect("multipart content-type");
    assert_eq!(r.header("content-length").unwrap().parse::<usize>().unwrap(), r.body.len());
    let sep = format!("--{boundary}");
    let parts: Vec<&[u8]> = split_on(&r.body, sep.as_bytes());
    // leading empty, two parts, trailing "--\r\n"
    assert_eq!(parts.len(), 4, "unexpected multipart part count");
    assert!(window_contains(parts[1], b"Content-Range: bytes 0-1/10240"));
    assert!(window_contains(parts[1], &[0u8, 1]));
    assert!(window_contains(parts[2], &[4u8, 5]));
    assert_eq!(boundary, "envoyfilesboundary0000000000002800000000002ebc98a1");
}

#[test]
fn if_range_stale_etag_serves_full() {
    let r = server().request(
        "GET",
        "/data.bin",
        &[("Range", "bytes=0-1"), ("If-Range", "\"stale\"")],
    );
    assert_eq!(r.status, 200);
    assert_eq!(r.body.len(), 10240);
}

#[test]
fn precompressed_gzip() {
    let r = server().request("GET", "/app.js", &[("Accept-Encoding", "gzip")]);
    assert_eq!(r.status, 200);
    assert_eq!(r.header("content-encoding"), Some("gzip"));
    assert_eq!(
        r.header("vary").map(|v| v.to_ascii_lowercase()),
        Some("accept-encoding".into())
    );
    assert!(r.header("content-type").unwrap().contains("javascript"));

    let mut decoded = Vec::new();
    flate2::read::GzDecoder::new(&r.body[..]).read_to_end(&mut decoded).unwrap();
    assert_eq!(decoded, b"console.log('envoy files');\n".repeat(10));
}

#[test]
fn precompressed_brotli_preferred() {
    let r = server().request("GET", "/app.js", &[("Accept-Encoding", "br, gzip")]);
    assert_eq!(r.status, 200);
    assert_eq!(r.header("content-encoding"), Some("br"));
    assert_eq!(r.body, b"BROTLI-BYTES");
}

#[test]
fn precompressed_identity_without_accept_encoding() {
    let r = server().get("/app.js");
    assert_eq!(r.status, 200);
    assert_eq!(r.header("content-encoding"), None);
    assert_eq!(r.body, b"console.log('envoy files');\n".repeat(10));
}

#[test]
fn multiple_mounts_strip_their_prefix() {
    let statics = Server::with("\"strip_prefix\": \"/static/\", \"directory\": \"listing\"");
    let assets = Server::with("\"strip_prefix\": \"/assets/\"");

    // Each mount strips its prefix and resolves under the shared root.
    let a = statics.get("/static/hello.txt");
    assert_eq!(a.status, 200);
    assert_eq!(a.body, b"hello world\n");

    // The second registration is served independently by the same module.
    let b = assets.get("/assets/hello.txt");
    assert_eq!(b.status, 200);
    assert_eq!(b.body, b"hello world\n");

    // Nested paths resolve under the mount.
    let nested = statics.get("/static/sub/nested.txt");
    assert_eq!(nested.status, 200);
    assert_eq!(nested.body, b"nested");

    // The mount root serves the index file.
    let index = statics.get("/static/");
    assert_eq!(index.status, 200);
    assert_eq!(index.body, b"<html>home</html>");

    // Trailing-slash redirect keeps the mount prefix in Location.
    let redirect = statics.request("GET", "/static/sub", &[]);
    assert_eq!(redirect.status, 301);
    assert_eq!(redirect.header("location"), Some("/static/sub/"));

    // Directory listing heading reflects the full (prefixed) URL path.
    let listing = statics.get("/static/listing-dir/");
    assert_eq!(listing.status, 200);
    let html = String::from_utf8_lossy(&listing.body);
    assert!(
        html.contains("Index of /static/listing-dir"),
        "listing heading should carry the mount prefix: {html}"
    );

    // A path outside the mount is not served.
    let miss = statics.get("/nope");
    assert_eq!(miss.status, 404);
    assert_eq!(statics.get("/staticfoo").status, 404);
}

#[test]
fn serves_a_file() {
    let response = Server::with("\"etag\": true").get("/hello.txt");
    assert_eq!(response.status, 200);
    assert_eq!(response.body, b"hello world\n");
}

#[test]
fn forcing_the_blocking_backend_leaves_answers_alone() {
    let server = Server::with("\"force_blocking\": true");
    assert!(server.config.force_blocking);

    let hello = server.get("/hello.txt");
    assert_eq!(hello.status, 200);
    assert_eq!(hello.body, b"hello world\n");

    let data = server.request("GET", "/data.bin", &[("Range", "bytes=0-9")]);
    assert_eq!(data.status, 206);
    assert_eq!(data.body, (0u8..10).collect::<Vec<u8>>());
}

#[test]
fn slow_reader_gets_intact_body() {
    let server = big_server("\"chunk_size\": 65536, \"max_inflight_reads\": 2");
    let mut exchange = Exchange::new(&server.tree, server.config.clone());
    exchange.start("GET", "/big.bin", &[]);
    let mut turn = 0u64;
    while !exchange.done {
        turn += 1;
        // The write buffer fills and drains all the time.
        if turn % 3 == 0 {
            exchange.filter.on_above_high_watermark();
            exchange.filter.on_above_high_watermark();
            let before = exchange.response.body.len();
            exchange.turn();
            assert_eq!(exchange.response.body.len(), before);
            assert!(!exchange.filter.on_below_low_watermark());
            assert!(exchange.filter.on_below_low_watermark());
        }
        exchange.turn();
    }
    assert_eq!(exchange.response.status, 200);
    assert_eq!(exchange.response.body.len(), BIG_FILE_BYTES);
    assert!(&exchange.response.body == big_contents());
}

#[test]
fn paused_stream_reads_nothing_more() {
    let server = big_server("\"chunk_size\": 65536, \"max_inflight_reads\": 2");
    let mut exchange = Exchange::new(&server.tree, server.config.clone());
    exchange.start("GET", "/big.bin", &[]);
    while exchange.response.body.is_empty() {
        exchange.turn();
    }
    // The client stalls, and nothing more is read for it.
    exchange.filter.on_above_high_watermark();
    let reads = exchange.reads;
    for _ in 0..100 {
        exchange.turn();
    }
    assert!(exchange.reads == reads);
    assert!(exchange.max_buffered <= 2);
    let buffered = (exchange.max_buffered * 65536) as u64;
    let file_size = BIG_FILE_BYTES as u64;
    assert!(buffered < file_size / 4, "buffered {buffered} of {file_size}");
}

#[test]
fn abandoned_requests_do_not_disturb_others() {
    let server = big_server("\"etag\": true");
    // Several large transfers are started and dropped half-way.
    for _ in 0..5 {
        let mut exchange = Exchange::new(&server.tree, server.config.clone());
        exchange.start("GET", "/big.bin", &[]);
        exchange.turn();
        exchange.turn();
        exchange.bridge.close();
        assert!(exchange.bridge.send(Event::Read(0, Vec::new())).is_err());
        assert!(exchange.bridge.process().is_empty());
        assert!(exchange.bridge.send(Event::Read(0, Vec::new())).is_err());
    }

    let r = server.get("/hello.txt");
    assert_eq!(r.status, 200);
    assert_eq!(r.body, b"hello world\n");

    let big = server.get("/big.bin");
    assert_eq!(big.status, 200);
    assert!(&big.body == big_contents());
}

#[test]
fn reads_that_complete_out_of_order_are_sent_in_order() {
    let mut server = Server::with("\"chunk_size\": 4096, \"max_inflight_reads\": 4");
    let contents: Vec<u8> = big_file(100_000);
    server.tree.files.insert("mid.bin".to_string(), contents.clone());
    let mut exchange = Exchange::new(&server.tree, server.config.clone());
    exchange.reversed = true;
    exchange.start("GET", "/mid.bin", &[]);
    while !exchange.done {
        exchange.turn();
    }
    assert_eq!(exchange.response.body, contents);
    // The first chunk came with the open, and no chunk was read twice.
    assert_eq!(exchange.reads, 100_000usize.div_ceil(4096) - 1);
    assert!(exchange.max_buffered <= 4);
}

#[test]
fn window_counts_what_has_been_read_and_not_sent() {
    let mut server = Server::with("\"chunk_size\": 4096, \"max_inflight_reads\": 2");
    server.tree.files.insert("mid.bin".to_string(), big_file(50_000));
    let mut filter = Filter::new(server.config.clone());
    let head = RequestHead {
        method: Some(b"GET".to_vec()),
        path: Some(b"/mid.bin".to_vec()),
        accept_encoding: None,
        if_none_match: None,
        if_modified_since: None,
        if_match: None,
        if_unmodified_since: None,
        if_range: None,
        range: None,
    };
    let ctx = match filter.on_request_headers(head, parse_quality) {
        Action::Open { ctx, request, .. } => {
            assert_eq!(request.prefetch_len, 4096);
            ctx
        }
        _ => panic!("expected an open"),
    };
    let stat = server.tree.stat("mid.bin").unwrap();
    // Nothing was prefetched, so the first chunk is read.
    assert!(matches!(
        filter.on_opened(stat, ctx, Vec::new()),
        Action::SendHead { end_stream: false, .. }
    ));
    match filter.pump() {
        PumpStep::Read(tasks) => {
            let seqs: Vec<usize> = tasks.iter().map(|t| t.seq).collect();
            assert_eq!(seqs, vec![0, 1]);
        }
        _ => panic!("expected reads"),
    }
    // The second chunk arrives first: the window stays full.
    assert!(matches!(filter.on_read(1, Ok(vec![1; 4096])), Action::Wait));
    match filter.pump() {
        PumpStep::Read(tasks) => assert!(tasks.is_empty()),
        _ => panic!("expected no reads"),
    }
    // Bytes that no read is outstanding for are dropped.
    assert!(matches!(filter.on_read(1, Ok(vec![9; 4096])), Action::Wait));
    assert!(matches!(filter.on_read(7, Ok(vec![9; 4096])), Action::Wait));
    assert!(matches!(filter.on_read(0, Ok(vec![0; 4096])), Action::Wait));
    for expected in [0u8, 1] {
        match filter.pump() {
            PumpStep::Send { bytes, end_stream } => {
                assert_eq!(bytes, vec![expected; 4096]);
                assert!(!end_stream);
            }
            _ => panic!("expected bytes"),
        }
    }
    match filter.pump() {
        PumpStep::Read(tasks) => {
            let seqs: Vec<usize> = tasks.iter().map(|t| t.seq).collect();
            assert_eq!(seqs, vec![2, 3]);
        }
        _ => panic!("expected reads"),
    }
    // A failed read ends the stream.
    let error = IoError { kind: ErrorKind::Other, raw_os_error: Some(5) };
    assert!(matches!(filter.on_read(2, Err(error)), Action::Truncate));
    assert!(matches!(filter.pump(), PumpStep::Idle));
}

#[test]
fn cache_control_comes_with_content_only() {
    let server = Server::with("\"cache_control\": \"max-age=300\"");
    let whole = server.get("/data.bin");
    assert_eq!(whole.header("cache-control"), Some("max-age=300"));
    let part = server.request("GET", "/data.bin", &[("Range", "bytes=0-1")]);
    assert_eq!((part.status, part.header("cache-control")), (206, Some("max-age=300")));
    let etag = whole.header("etag").unwrap();
    let same = server.request("GET", "/data.bin", &[("If-None-Match", etag)]);
    assert_eq!((same.status, same.header("cache-control")), (304, None));
    let beyond = server.request("GET", "/data.bin", &[("Range", "bytes=99999-")]);
    assert_eq!((beyond.status, beyond.header("cache-control")), (416, None));
    assert_eq!(server.get("/nope").header("cache-control"), None);
}

#[test]
fn validators_of_a_response_are_recognised() {
    let server = server();
    let first = server.get("/data.bin");
    let etag = first.header("etag").unwrap();
    let date = first.header("last-modified").unwrap();
    assert_eq!(date, "Sun, 06 Nov 1994 08:49:37 GMT");
    for validator in [etag, date] {
        let fields = [("Range", "bytes=0-1"), ("If-Range", validator)];
        assert_eq!(server.request("GET", "/data.bin", &fields).status, 206);
    }
    assert_eq!(server.request("GET", "/data.bin", &[("If-Match", etag)]).status, 200);
    assert_eq!(server.request("GET", "/data.bin", &[("If-Unmodified-Since", date)]).status, 200);
    let before = "Sun, 06 Nov 1994 08:49:36 GMT";
    assert_eq!(server.request("GET", "/data.bin", &[("If-Unmodified-Since", before)]).status, 412);
    assert_eq!(server.request("GET", "/data.bin", &[("If-Modified-Since", before)]).status, 200);
}

#[test]
fn blanks_inside_tags_match_nothing() {
    let server = server();
    let etag = server.get("/data.bin").header("etag").unwrap().to_string();
    for tag in ["\"a b\"", "W/\"a\tb\"", "\" \""] {
        let status = |name: &str, value: &str| {
            server.request("GET", "/data.bin", &[(name, value), ("Range", "bytes=0-1")]).status
        };
        assert_eq!(status("If-None-Match", tag), 206);
        assert_eq!(status("If-None-Match", &format!("{tag}, {etag}")), 304);
        assert_eq!(status("If-Match", tag), 412);
        assert_eq!(status("If-Match", &format!("{tag},\t{etag}")), 206);
        assert_eq!(status("If-Range", tag), 200);
    }
}

#[test]
fn disabled_validators_are_neither_shown_nor_honored() {
    let server = Server::with("\"etag\": false, \"last_modified\": false");
    let first = server.get("/data.bin");
    assert_eq!((first.header("etag"), first.header("last-modified")), (None, None));
    let fields = [
        ("If-Match", "\"other\""),
        ("If-Unmodified-Since", "Sun, 06 Nov 1994 08:49:36 GMT"),
        ("If-None-Match", "*"),
    ];
    assert_eq!(server.request("GET", "/data.bin", &fields).status, 200);
}

#[test]
fn every_rejection_has_its_status() {
    let server = server();
    assert_eq!(server.get(&format!("/{}", "a".repeat(5000))).status, 414);
    assert_eq!(server.get("/%ff").status, 400);
    assert_eq!(server.get("/a:b").status, 400);
    assert_eq!(server.get("/..").status, 404);
    assert_eq!(server.get("/.x").status, 404);
}

#[test]
fn directory_modes_differ() {
    assert_eq!(Server::with("\"directory\": \"index\"").get("/listing-dir/").status, 404);
    assert_eq!(Server::with("\"directory\": \"deny\"").get("/sub/").status, 403);
    assert_eq!(Server::with("\"directory\": \"listing\"").get("/listing-dir/").status, 200);
    let plain = Server::with("\"redirect_trailing_slash\": false");
    assert_eq!(plain.get("/sub").body, b"<html>sub</html>");
    let bare = Server::with("\"index_files\": []");
    assert_eq!(bare.get("/sub/").status, 404);
    let second = Server::with("\"index_files\": [\"none.html\", \"nested.txt\"]");
    assert_eq!(second.get("/sub/").body, b"nested");
}

#[test]
fn index_file_that_is_a_directory_is_none() {
    let mut server = Server::with("\"directory\": \"index\"");
    server.tree.files.insert("odd/index.html/x".to_string(), Vec::new());
    assert_eq!(server.get("/odd/").status, 404);
    let mut listing = Server::with("\"directory\": \"listing\"");
    listing.tree.files.insert("odd/index.html/x".to_string(), Vec::new());
    let r = listing.get("/odd/");
    assert_eq!(r.status, 200);
    assert!(String::from_utf8_lossy(&r.body).contains("index.html/"));
    let mut second = Server::with("\"index_files\": [\"index.html\", \"b.txt\"]");
    second.tree.files.insert("odd/index.html/x".to_string(), Vec::new());
    second.tree.files.insert("odd/b.txt".to_string(), b"b".to_vec());
    assert_eq!(second.get("/odd/").body, b"b");
}

#[test]
fn unparseable_conditionals_are_ignored() {
    let server = server();
    for name in ["If-Match", "If-None-Match", "If-Modified-Since", "If-Unmodified-Since"] {
        for value in ["garbage", "garbage, more", "Sun, 99 Nov 1994 08:49:37 GMT", "\"a b\" \"c\""] {
            assert_eq!(server.request("GET", "/data.bin", &[(name, value)]).status, 200);
        }
    }
    let unbalanced = server.request("GET", "/data.bin", &[("If-Match", "\"open")]);
    assert_eq!(unbalanced.status, 200);
    // One tag among garbage is enough to be evaluated.
    let mixed = server.request("GET", "/data.bin", &[("If-Match", "x, \"other\"")]);
    assert_eq!(mixed.status, 412);
    let any = server.request("GET", "/data.bin", &[("If-Match", "*")]);
    assert_eq!(any.status, 200);
    let none = server.request("GET", "/data.bin", &[("If-None-Match", "*")]);
    assert_eq!(none.status, 304);
}

#[test]
fn dates_are_compared_with_the_file() {
    let server = server();
    let own = "Sun, 06 Nov 1994 08:49:37 GMT";
    let older = "Sun, 06 Nov 1994 08:49:36 GMT";
    let newer = "Sun, 06 Nov 1994 08:49:38 GMT";
    let status = |name: &str, value: &str| {
        server.request("GET", "/data.bin", &[(name, value), ("Range", "bytes=0-1")]).status
    };
    for (date, stale) in [(older, true), (own, false), (newer, false)] {
        assert_eq!(status("If-Unmodified-Since", date), if stale { 412 } else { 206 });
        assert_eq!(status("If-Modified-Since", date), if stale { 206 } else { 304 });
        assert_eq!(status("If-Range", date), if stale { 200 } else { 206 });
    }
    // A date in the other formats, one of them with a quote for its blank.
    assert_eq!(status("If-Range", "Sunday, 06-Nov-94 08:49:37 GMT"), 206);
    assert_eq!(status("If-Range", "Sunday, 06-Nov-94\"08:49:37 GMT"), 206);
    assert_eq!(status("If-Range", "Sun Nov  6 08:49:37 1994"), 206);
    assert_eq!(status("If-Range", "garbage"), 200);
}

#[test]
fn disabled_ranges_serve_the_whole_file() {
    let server = Server::with("\"ranges\": \"none\"");
    let r = server.request("GET", "/data.bin", &[("Range", "bytes=0-9")]);
    assert_eq!(r.status, 200);
    assert_eq!(r.body.len(), 10240);
    let single = Server::with("\"ranges\": \"single\"");
    let r = single.request("GET", "/data.bin", &[("Range", "bytes=0-1,4-5")]);
    assert_eq!(r.status, 200);
    let r = single.request("GET", "/data.bin", &[("Range", "bytes=0-1")]);
    assert_eq!(r.status, 206);
}

#[test]
fn empty_file_is_answered_without_a_body() {
    let mut server = server();
    server.tree.files.insert("empty.txt".to_string(), Vec::new());
    let r = server.get("/empty.txt");
    assert_eq!(r.status, 200);
    assert_eq!(r.header("content-length"), Some("0"));
    assert!(r.body.is_empty());
}

#[test]
fn open_errors_have_their_status() {
    let config = configure("\"etag\": true");
    let statuses = [
        (ErrorKind::NotFound, None, 404),
        (ErrorKind::PermissionDenied, None, 403),
        (ErrorKind::NotADirectory, None, 404),
        (ErrorKind::IsADirectory, None, 403),
        (ErrorKind::Other, Some(40), 403),
        (ErrorKind::Other, Some(5), 500),
    ];
    for (kind, raw_os_error, status) in statuses {
        let tree = Tree::small();
        let mut exchange = Exchange::new(&tree, config.clone());
        exchange.start("GET", "/hello.txt", &[]);
        exchange.bridge.process();
        match exchange.filter.on_open_error(IoError { kind, raw_os_error }) {
            Action::Respond { status: found, .. } => assert_eq!(found.as_u16(), status),
            _ => panic!("expected a response"),
        }
        match exchange.filter.on_dir(Err(IoError { kind, raw_os_error })) {
            Action::Respond { status: found, .. } => assert_eq!(found.as_u16(), status),
            _ => panic!("expected a response"),
        }
    }
}

#[test]
fn compressed_variant_that_is_a_directory_is_passed_over() {
    let mut server = server();
    server.tree.files.insert("hello.txt.gz/x".to_string(), Vec::new());
    let r = server.request("GET", "/hello.txt", &[("Accept-Encoding", "gzip")]);
    assert_eq!(r.status, 200);
    assert_eq!(r.body, b"hello world\n");
    assert_eq!(r.header("vary"), Some("Accept-Encoding"));
    assert_eq!(r.header("content-encoding"), None);
}

#[test]
fn times_without_a_date_cannot_be_served() {
    let config = configure("\"directory\": \"listing\"");
    let tree = Tree::small();
    let mut exchange = Exchange::new(&tree, config);
    exchange.start("GET", "/hello.txt", &[]);
    let ctx = match exchange.bridge.process().pop() {
        Some(Event::Opened(_, ctx, _)) => ctx,
        _ => panic!("expected an open"),
    };
    let stat = FileStat { size: 1, mtime_unix: -1, mtime_nanos: 0, is_dir: false };
    assert!(matches!(exchange.filter.on_opened(stat, ctx, Vec::new()), Action::Fail));
    let entry =
        DirEntryInfo { name: "x".to_string(), is_dir: false, size: 1, mtime_unix: i64::MAX };
    assert!(matches!(exchange.filter.on_dir(Ok(vec![entry])), Action::Fail));
}

fn split_on<'a>(haystack: &'a [u8], sep: &[u8]) -> Vec<&'a [u8]> {
    let mut parts = Vec::new();
    let mut start = 0;
    let mut i = 0;
    while i + sep.len() <= haystack.len() {
        if &haystack[i..i + sep.len()] == sep {
            parts.push(&haystack[start..i]);
            i += sep.len();
            start = i;
        } else {
            i += 1;
        }
    }
    parts.push(&haystack[start..]);
    parts
}

fn window_contains(haystack: &[u8], needle: &[u8]) -> bool {
    haystack.windows(needle.len()).any(|w| w == needle)
}
