//! The request state machine: from the request head over opening files and
//! reading directories to a streamed response. Every step takes what happened
//! and says what to do next; whoever drives it performs the I/O.

use crate::config::{Config, DirectoryMode, Options, RangeSupport};
use crate::encoding::negotiate_precompressed;
use crate::error::status_for_io_error;
use crate::io::{DirEntryInfo, FileStat, IoError, OpenRequest};
use crate::listing::{render_listing, DirEntry};
use crate::message::{push_field, HeaderName, StatusCode};
use crate::mime::content_type_for;
use crate::path::{resolve_request_path, PathPolicy, RejectReason, Resolution, ValidatedPath};
use crate::range::RangePolicy;
use crate::response_plan::{
    try_plan_response, BodyPlan, Facts, FileMeta, RequestFacts, ResponsePlan,
};
use crate::stream::{body_chunks, ReadTask, Streaming};
use crate::validators::ConditionalHeaders;
use crate::{
    encoding, error, io, listing, message, mime, path, range, response_plan, stream, text,
    validators,
};
use std::collections::VecDeque;
use std::path::PathBuf;
use std::sync::Arc;
use vstd::prelude::*;
use vstd::slice::slice_subrange;

verus! {

/// The longest raw path that is looked at, in bytes.
pub const MAX_PATH_LEN: usize = 4096;

/// The most parts of a multi-range response.
pub const MAX_PARTS: usize = 50;

/// Context threaded through an open so its completion can be planned without
/// re-deriving anything.
#[derive(Debug)]
pub struct OpenCtx {
    pub encoding: Option<&'static str>,
    pub content_type: String,
    pub add_vary: bool,
}

/// What an [`OpenCtx`] says.
pub struct Ctx {
    pub encoding: Option<Seq<char>>,
    pub content_type: Seq<char>,
    pub add_vary: bool,
}

impl View for OpenCtx {
    type V = Ctx;

    open spec fn view(&self) -> Ctx {
        Ctx {
            encoding: validators::text_of(self.encoding),
            content_type: self.content_type@,
            add_vary: self.add_vary,
        }
    }
}

/// A file that may be what is asked for, by its path below the root.
#[derive(Debug)]
pub struct Candidate {
    pub relative: String,
    pub ctx: OpenCtx,
}

/// A list of candidates as paths with contexts.
pub open spec fn candidate_views(candidates: Seq<Candidate>) -> Seq<(Seq<char>, Ctx)> {
    candidates.map_values(|c: Candidate| (c.relative@, c.ctx@))
}

/// A list of index files as names with content types.
pub open spec fn index_views(pending: Seq<(String, String)>) -> Seq<(Seq<char>, Seq<char>)> {
    pending.map_values(|p: (String, String)| (p.0@, p.1@))
}

/// The head of a request, with the fields as raw bytes.
pub struct RequestHead {
    pub method: Option<Vec<u8>>,
    pub path: Option<Vec<u8>>,
    pub accept_encoding: Option<Vec<u8>>,
    pub if_none_match: Option<Vec<u8>>,
    pub if_modified_since: Option<Vec<u8>>,
    pub if_match: Option<Vec<u8>>,
    pub if_unmodified_since: Option<Vec<u8>>,
    pub if_range: Option<Vec<u8>>,
    pub range: Option<Vec<u8>>,
}

/// What is kept of a request.
#[derive(Debug)]
pub struct RequestData {
    pub method_head: bool,
    pub if_none_match: Option<String>,
    pub if_modified_since: Option<String>,
    pub if_match: Option<String>,
    pub if_unmodified_since: Option<String>,
    pub if_range: Option<String>,
    pub range_header: Option<String>,
    pub relative: String,
    pub trailing_slash: bool,
}

/// What a [`RequestData`] says.
pub struct Request {
    pub method_head: bool,
    pub if_none_match: Option<Seq<char>>,
    pub if_modified_since: Option<Seq<char>>,
    pub if_match: Option<Seq<char>>,
    pub if_unmodified_since: Option<Seq<char>>,
    pub if_range: Option<Seq<char>>,
    pub range_header: Option<Seq<char>>,
    pub relative: Seq<char>,
    pub trailing_slash: bool,
}

impl View for RequestData {
    type V = Request;

    open spec fn view(&self) -> Request {
        Request {
            method_head: self.method_head,
            if_none_match: self.if_none_match.deep_view(),
            if_modified_since: self.if_modified_since.deep_view(),
            if_match: self.if_match.deep_view(),
            if_unmodified_since: self.if_unmodified_since.deep_view(),
            if_range: self.if_range.deep_view(),
            range_header: self.range_header.deep_view(),
            relative: self.relative@,
            trailing_slash: self.trailing_slash,
        }
    }
}

/// What to do next.
pub enum Action {
    /// Nothing, until something happens.
    Wait,
    /// Answer with a complete response. This ends the stream.
    Respond { status: StatusCode, headers: Vec<(HeaderName, String)>, body: Option<String> },
    /// Send the head of the response. It ends the stream if nothing follows.
    SendHead { status: StatusCode, headers: Vec<(HeaderName, String)>, end_stream: bool },
    /// Open a file: the path below the root, or an index file in that
    /// directory.
    Open { relative: String, index: Option<String>, ctx: OpenCtx, request: OpenRequest },
    /// Read the directory at a path below the root.
    ReadDir { relative: String, path: PathBuf },
    /// End the stream early: headers are already sent, so the only signal left
    /// is to reset the stream.
    Truncate,
    /// Give up: the response holds a value that cannot be sent.
    Fail,
}

/// What an [`Action`] says.
pub enum Decision {
    Wait,
    Respond {
        status: StatusCode,
        headers: Seq<(HeaderName, Seq<char>)>,
        body: Option<Seq<char>>,
    },
    SendHead { status: StatusCode, headers: Seq<(HeaderName, Seq<char>)>, end_stream: bool },
    Open {
        relative: Seq<char>,
        index: Option<Seq<char>>,
        ctx: Ctx,
        path: PathBuf,
        containment_root: Option<PathBuf>,
        deny_symlinks: bool,
        prefetch_len: int,
    },
    ReadDir { relative: Seq<char>, path: PathBuf },
    Truncate,
    Fail,
}

impl View for Action {
    type V = Decision;

    open spec fn view(&self) -> Decision {
        match self {
            Action::Wait => Decision::Wait,
            Action::Respond { status, headers, body } => Decision::Respond {
                status: *status,
                headers: message::fields(headers@),
                body: body.deep_view(),
            },
            Action::SendHead { status, headers, end_stream } => Decision::SendHead {
                status: *status,
                headers: message::fields(headers@),
                end_stream: *end_stream,
            },
            Action::Open { relative, index, ctx, request } => Decision::Open {
                relative: relative@,
                index: index.deep_view(),
                ctx: ctx@,
                path: request.path,
                containment_root: request.containment_root,
                deny_symlinks: request.deny_symlinks,
                prefetch_len: request.prefetch_len as int,
            },
            Action::ReadDir { relative, path } => Decision::ReadDir {
                relative: relative@,
                path: *path,
            },
            Action::Truncate => Decision::Truncate,
            Action::Fail => Decision::Fail,
        }
    }
}

impl Action {
    /// Whether the action ends the stream.
    pub open spec fn ends(self) -> bool {
        match self {
            Action::Respond { .. } => true,
            Action::SendHead { end_stream, .. } => end_stream,
            Action::Truncate => true,
            Action::Fail => true,
            _ => false,
        }
    }

    /// Whether the action ends the stream.
    pub fn ends_stream(&self) -> (res: bool)
        ensures
            res == self.ends(),
    {
        match self {
            Action::Respond { .. } => true,
            Action::SendHead { end_stream, .. } => *end_stream,
            Action::Truncate => true,
            Action::Fail => true,
            Action::Wait => false,
            Action::Open { .. } => false,
            Action::ReadDir { .. } => false,
        }
    }
}

/// Where a request stands.
pub enum Phase {
    Idle,
    /// Trying the candidates for a file.
    ResolvingFile { pending: VecDeque<Candidate> },
    /// Trying the index files of a directory, as names with content types.
    ResolvingIndex { names: VecDeque<(String, String)> },
    Streaming(Streaming),
    Done,
}

/// What a [`Phase`] says.
pub enum Stage {
    Idle,
    ResolvingFile { pending: Seq<(Seq<char>, Ctx)> },
    ResolvingIndex { names: Seq<(Seq<char>, Seq<char>)> },
    Streaming(Streaming),
    Done,
}

impl View for Phase {
    type V = Stage;

    open spec fn view(&self) -> Stage {
        match self {
            Phase::Idle => Stage::Idle,
            Phase::ResolvingFile { pending } => Stage::ResolvingFile {
                pending: candidate_views(pending@),
            },
            Phase::ResolvingIndex { names } => Stage::ResolvingIndex { names: index_views(names@) },
            Phase::Streaming(stream) => Stage::Streaming(*stream),
            Phase::Done => Stage::Done,
        }
    }
}

/// A response with a status and nothing else.
pub open spec fn status_only(status: StatusCode) -> Decision {
    Decision::Respond { status, headers: seq![], body: None }
}

/// The open of a file, which must stay inside the root. The first chunk is
/// folded into the open for a plain whole-file GET (the response streams from
/// offset 0). Not so for HEAD (no body) and range requests (body doesn't start
/// at 0), where the prefetch would be waste.
pub open spec fn open_file(
    o: Options,
    r: Request,
    relative: Seq<char>,
    index: Option<Seq<char>>,
    ctx: Ctx,
) -> Decision {
    Decision::Open {
        relative,
        index,
        ctx,
        path: io::location(o.root, relative, index),
        containment_root: Some(o.root),
        deny_symlinks: !o.follow_symlinks_within_root,
        prefetch_len: if !r.method_head && r.range_header is None {
            o.chunk_size
        } else {
            0
        },
    }
}

/// Whether a decision reaches only for what lies where it says below the root,
/// and lets no open lead out of the root.
pub open spec fn stays_inside(o: Options, decision: Decision) -> bool {
    match decision {
        Decision::Open { relative, index, path, containment_root, .. } => {
            &&& path == io::location(o.root, relative, index)
            &&& containment_root == Some(o.root)
        },
        Decision::ReadDir { relative, path } => path == io::location(o.root, relative, None),
        _ => true,
    }
}

/// Tries the next candidate; 404 where none is left.
pub open spec fn next_candidate(o: Options, r: Request, pending: Seq<(Seq<char>, Ctx)>) -> (
    Stage,
    Decision,
) {
    if pending.len() == 0 {
        (Stage::Done, status_only(StatusCode::NOT_FOUND))
    } else {
        (
            Stage::ResolvingFile { pending: pending.skip(1) },
            open_file(o, r, pending[0].0, None, pending[0].1),
        )
    }
}

/// The read of the directory that a request names.
pub open spec fn read_dir(o: Options, r: Request) -> Decision {
    Decision::ReadDir { relative: r.relative, path: io::location(o.root, r.relative, None) }
}

/// What to do with a directory that has no index file.
pub open spec fn directory_fallback(o: Options, r: Request, stage: Stage) -> (Stage, Decision) {
    if o.directory == DirectoryMode::Listing {
        (stage, read_dir(o, r))
    } else {
        (Stage::Done, status_only(StatusCode::NOT_FOUND))
    }
}

/// Tries the next index file; falls back where none is left.
pub open spec fn next_index(o: Options, r: Request, pending: Seq<(Seq<char>, Seq<char>)>) -> (
    Stage,
    Decision,
) {
    if pending.len() == 0 {
        directory_fallback(o, r, Stage::ResolvingIndex { names: pending })
    } else {
        (
            Stage::ResolvingIndex { names: pending.skip(1) },
            open_file(
                o,
                r,
                r.relative,
                Some(pending[0].0),
                Ctx { encoding: None, content_type: pending[0].1, add_vary: false },
            ),
        )
    }
}

/// The request URL path of a path below the root, with the stripped mount
/// prefix restored so redirects and listing headings point back through the
/// mount.
pub open spec fn url_for(o: Options, relative: Seq<char>) -> Seq<char> {
    (match o.strip_prefix {
        Some(prefix) => prefix,
        None => seq![],
    }) + seq!['/'] + relative
}

/// The index files with their content types.
pub open spec fn index_candidates(o: Options) -> Seq<(Seq<char>, Seq<char>)> {
    o.index_files.map_values(
        |name: Seq<char>|
            (name, mime::content_type(name, o.mime_overrides, o.default_content_type)),
    )
}

/// What to do when the path turns out to be a directory.
pub open spec fn directory_step(o: Options, r: Request, stage: Stage) -> (Stage, Decision) {
    if !r.trailing_slash && o.redirect_trailing_slash {
        (
            Stage::Done,
            Decision::Respond {
                status: StatusCode::MOVED_PERMANENTLY,
                headers: seq![(HeaderName::Location, url_for(o, r.relative).push('/'))],
                body: None,
            },
        )
    } else if o.directory == DirectoryMode::Deny {
        (Stage::Done, status_only(StatusCode::FORBIDDEN))
    } else if o.index_files.len() == 0 {
        directory_fallback(o, r, stage)
    } else {
        next_index(o, r, index_candidates(o))
    }
}

/// What to do when a file cannot be opened.
pub open spec fn open_error_step(o: Options, r: Request, stage: Stage, error: IoError) -> (
    Stage,
    Decision,
) {
    match stage {
        Stage::ResolvingFile { pending } => if pending.len() > 0 {
            next_candidate(o, r, pending)
        } else {
            (Stage::Done, status_only(error::error_status(error.kind, error.raw_os_error)))
        },
        Stage::ResolvingIndex { names } => next_index(o, r, names),
        _ => (stage, Decision::Wait),
    }
}

/// What to do when a pre-compressed variant or an index file turns out to be a
/// directory.
pub open spec fn open_miss_step(o: Options, r: Request, stage: Stage) -> (Stage, Decision) {
    match stage {
        Stage::ResolvingFile { pending } => next_candidate(o, r, pending),
        Stage::ResolvingIndex { names } => next_index(o, r, names),
        _ => (stage, Decision::Wait),
    }
}

/// The boundary of a multipart response for a file.
pub open spec fn boundary_text(size: u64, mtime_unix: i64) -> Seq<char> {
    "envoyfilesboundary"@ + text::zero_padded(text::hexadecimal(size as nat), 16)
        + text::zero_padded(text::hexadecimal(validators::two_complement(mtime_unix)), 16)
}

/// The facts that a response is planned from.
pub open spec fn serve_facts(o: Options, r: Request, stat: FileStat, ctx: Ctx) -> Facts {
    Facts {
        method_head: r.method_head,
        if_match: r.if_match,
        if_unmodified_since: r.if_unmodified_since,
        if_none_match: r.if_none_match,
        if_modified_since: r.if_modified_since,
        if_range: r.if_range,
        range_header: if o.ranges == RangeSupport::Off {
            None
        } else {
            r.range_header
        },
        content_type: ctx.content_type,
        etag_enabled: o.etag,
        last_modified_enabled: o.last_modified,
        allow_multi: o.ranges == RangeSupport::Multi,
        max_parts: MAX_PARTS as nat,
        boundary: boundary_text(stat.size, stat.mtime_unix),
        content_encoding: ctx.encoding,
        add_vary: ctx.add_vary,
        cache_control: o.cache_control,
    }
}

/// The metadata that a response is planned from.
pub open spec fn serve_meta(stat: FileStat) -> FileMeta {
    FileMeta {
        size: stat.size,
        mtime_unix: stat.mtime_unix,
        mtime_nanos: stat.mtime_nanos,
        is_dir: false,
    }
}

/// The text of a header field: bytes that are not UTF-8 are replaced, and an
/// empty field counts as absent.
pub open spec fn header_text(value: Option<Seq<u8>>) -> Option<Seq<char>> {
    match value {
        Some(bytes) => if lossy_text(bytes).len() == 0 {
            None
        } else {
            Some(lossy_text(bytes))
        },
        None => None,
    }
}

/// The text that `String::from_utf8_lossy` makes of bytes.
pub uninterp spec fn lossy_text(bytes: Seq<u8>) -> Seq<char>;

/// `String::from_utf8_lossy`: the text of UTF-8 bytes, and the text with
/// replacement characters for other bytes. It is a function of the bytes,
/// named by [`lossy_text`].
#[verifier::external_body]
fn from_utf8_lossy(bytes: &[u8]) -> (res: String)
    ensures
        res@ == lossy_text(bytes@),
        vstd::utf8::valid_utf8(bytes@) ==> res@ == vstd::utf8::decode_utf8(bytes@),
{
    String::from_utf8_lossy(bytes).into_owned()
}

/// Bytes that may be absent, as a sequence.
pub open spec fn bytes_of(value: Option<Vec<u8>>) -> Option<Seq<u8>> {
    match value {
        Some(bytes) => Some(bytes@),
        None => None,
    }
}

/// The text of a header field, if it is there and not empty.
pub fn header_string(value: &Option<Vec<u8>>) -> (res: Option<String>)
    ensures
        res.deep_view() == header_text(bytes_of(*value)),
{
    match value {
        Some(bytes) => {
            let text = from_utf8_lossy(bytes.as_slice());
            keep_nonempty(text)
        },
        None => None,
    }
}

/// `text`, unless it is empty.
pub fn keep_nonempty(text: String) -> (res: Option<String>)
    ensures
        res.deep_view() == if text@.len() == 0 {
            None
        } else {
            Some(text@)
        },
{
    if text.as_str().is_empty() {
        None
    } else {
        Some(text)
    }
}

/// The path below a mount prefix (leading slash, no trailing slash), cut off
/// at a segment boundary, so `/static` matches `/static` and `/static/x` but
/// not `/staticfoo`. `None` when the path is not under the prefix.
pub open spec fn mounted_path(raw: Seq<char>, prefix: Seq<char>) -> Option<Seq<char>> {
    let rest = raw.skip(prefix.len() as int);
    if !text::has_prefix(raw, prefix) {
        None
    } else if rest.len() == 0 {
        Some(seq!['/'])
    } else if rest[0] == '/' {
        Some(rest)
    } else if rest[0] == '?' || rest[0] == '#' {
        Some(seq!['/'] + rest)
    } else {
        None
    }
}

/// Removes a normalized mount prefix (leading slash, no trailing slash) from
/// the raw request path at a segment boundary, so `/static` matches `/static`
/// and `/static/x` but not `/staticfoo`. Returns the remainder (always
/// starting with `/`), or `None` if the path is not under the prefix.
pub fn strip_mount_prefix(raw_path: &str, prefix: &str) -> (res: Option<String>)
    ensures
        res.deep_view() == mounted_path(raw_path@, prefix@),
        res matches Some(path) ==> path@.len() > 0 && path@[0] == '/',
{
    let raw = text::chars(raw_path);
    let prefix = text::chars(prefix);
    if !text::starts_with(raw.as_slice(), prefix.as_slice()) {
        return None;
    }
    let rest = slice_subrange(raw.as_slice(), prefix.len(), raw.len());
    assert(rest@ =~= raw_path@.skip(prefix@.len() as int));
    if rest.len() == 0 {
        let path = "/".to_owned();
        proof {
            reveal_strlit("/");
            assert(path@ =~= seq!['/']);
        }
        return Some(path);
    }
    let first = rest[0];
    if first == '/' {
        return Some(text::string_of(rest));
    }
    if first == '?' || first == '#' {
        let mut path = String::new();
        path.push('/');
        path.append(text::string_of(rest).as_str());
        assert(path@ =~= seq!['/'] + rest@);
        return Some(path);
    }
    None
}

/// The status for a rejected path.
pub open spec fn reject_status(reason: RejectReason) -> StatusCode {
    match reason {
        RejectReason::TooLong => StatusCode::URI_TOO_LONG,
        RejectReason::BadEncoding => StatusCode::BAD_REQUEST,
        RejectReason::BadCharacter => StatusCode::BAD_REQUEST,
        RejectReason::Traversal => StatusCode::NOT_FOUND,
        RejectReason::Dotfile => StatusCode::NOT_FOUND,
    }
}

/// The status for a rejected path.
pub fn status_for_rejection(reason: RejectReason) -> (res: StatusCode)
    ensures
        res == reject_status(reason),
{
    match reason {
        RejectReason::TooLong => StatusCode::URI_TOO_LONG,
        RejectReason::BadEncoding | RejectReason::BadCharacter => StatusCode::BAD_REQUEST,
        RejectReason::Traversal | RejectReason::Dotfile => StatusCode::NOT_FOUND,
    }
}

/// Whether the method of a request has the given name.
pub open spec fn is_method(method: Option<Seq<u8>>, name: Seq<char>) -> bool {
    method == Some(vstd::utf8::encode_utf8(name))
}

fn check_method(method: &Option<Vec<u8>>, name: &str) -> (res: bool)
    ensures
        res == is_method(bytes_of(*method), name@),
{
    let wanted = name.as_bytes();
    match method {
        Some(bytes) => {
            if bytes.len() != wanted.len() {
                return false;
            }
            let mut i: usize = 0;
            while i < bytes.len()
                invariant
                    0 <= i <= bytes.len(),
                    bytes.len() == wanted.len(),
                    wanted@ == vstd::utf8::encode_utf8(name@),
                    bytes_of(*method) == Some(bytes@),
                    forall|j: int| 0 <= j < i ==> bytes@[j] == wanted@[j],
                decreases bytes.len() - i,
            {
                if bytes[i] != wanted[i] {
                    return false;
                }
                i += 1;
            }
            assert(bytes@ =~= wanted@);
            true
        },
        None => false,
    }
}

/// The files that may be what is asked for, in the order in which they are
/// tried: the pre-compressed variants that the client accepts, then the file
/// itself.
///
/// Precompressed variants only make sense for a concrete file request
/// (not a directory), and only when the client accepts an encoding.
pub open spec fn file_candidates(
    o: Options,
    relative: Seq<char>,
    trailing_slash: bool,
    accept_encoding: Option<Seq<char>>,
    number: spec_fn(Seq<char>) -> Option<u32>,
) -> Seq<(Seq<char>, Ctx)> {
    let content_type = mime::content_type(relative, o.mime_overrides, o.default_content_type);
    let accepted = if trailing_slash {
        seq![]
    } else {
        encoding::negotiated(accept_encoding, o.precompressed, number)
    };
    accepted.map_values(
        |e: (Seq<char>, Seq<char>)|
            (relative + e.0, Ctx { encoding: Some(e.1), content_type, add_vary: true }),
    ).push((relative, Ctx { encoding: None, content_type, add_vary: accepted.len() > 0 }))
}

/// The path of a request with the mount prefix removed, if it is under it.
pub open spec fn request_path(o: Options, path: Option<Seq<u8>>) -> Option<Seq<char>> {
    let raw = match header_text(path) {
        Some(raw) => raw,
        None => seq![],
    };
    match o.strip_prefix {
        Some(prefix) => mounted_path(raw, prefix),
        None => Some(raw),
    }
}

/// What is kept of a request for a resolved path.
pub open spec fn kept_request(
    head: RequestHead,
    relative: Seq<char>,
    trailing_slash: bool,
) -> Request {
    Request {
        method_head: is_method(bytes_of(head.method), "HEAD"@),
        if_none_match: header_text(bytes_of(head.if_none_match)),
        if_modified_since: header_text(bytes_of(head.if_modified_since)),
        if_match: header_text(bytes_of(head.if_match)),
        if_unmodified_since: header_text(bytes_of(head.if_unmodified_since)),
        if_range: header_text(bytes_of(head.if_range)),
        range_header: header_text(bytes_of(head.range)),
        relative,
        trailing_slash,
    }
}

/// What to do with a new request. The first part is what is kept of a request
/// that is looked into.
pub open spec fn request_step(
    o: Options,
    head: RequestHead,
    number: spec_fn(Seq<char>) -> Option<u32>,
) -> (Option<Request>, Stage, Decision) {
    let method = bytes_of(head.method);
    if !is_method(method, "GET"@) && !is_method(method, "HEAD"@) {
        (
            None,
            Stage::Done,
            Decision::Respond {
                status: StatusCode::METHOD_NOT_ALLOWED,
                headers: seq![(HeaderName::Allow, "GET, HEAD"@)],
                body: None,
            },
        )
    } else {
        match request_path(o, bytes_of(head.path)) {
            None => (None, Stage::Done, status_only(StatusCode::NOT_FOUND)),
            Some(raw) => match path::resolution(raw, o.serve_dotfiles, MAX_PATH_LEN as nat) {
                Resolution::Reject(reason) => (
                    None,
                    Stage::Done,
                    status_only(reject_status(reason)),
                ),
                Resolution::Accept { relative, trailing_slash } => {
                    let r = kept_request(head, relative, trailing_slash);
                    let (stage, decision) = next_candidate(
                        o,
                        r,
                        file_candidates(
                            o,
                            relative,
                            trailing_slash,
                            header_text(bytes_of(head.accept_encoding)),
                            number,
                        ),
                    );
                    (Some(r), stage, decision)
                },
            },
        }
    }
}

/// Whether a request is one for a file that precompressed variants are
/// negotiated for, so that the qualities in its header count.
pub open spec fn negotiates(o: Options, head: RequestHead) -> bool {
    match request_step(o, head, encoding::no_quality()).0 {
        Some(r) => !r.trailing_slash && header_text(bytes_of(head.accept_encoding)) is Some,
        None => false,
    }
}

/// What to do when a file turns out to be a directory. A variant of a file and
/// an index file that are directories are passed over.
pub open spec fn opened_directory_step(o: Options, r: Request, stage: Stage, encoded: bool) -> (
    Stage,
    Decision,
) {
    if encoded || stage is ResolvingIndex {
        open_miss_step(o, r, stage)
    } else {
        directory_step(o, r, stage)
    }
}

/// What a directory entry is listed as.
pub open spec fn listed(e: DirEntryInfo) -> listing::Entry {
    listing::Entry {
        name: e.name@,
        is_dir: e.is_dir,
        size: e.size,
        mtime_unix: e.mtime_unix,
    }
}

/// What directory entries are listed as.
pub open spec fn listed_all(entries: Seq<DirEntryInfo>) -> Seq<listing::Entry> {
    entries.map_values(|e: DirEntryInfo| listed(e))
}

/// What to do with a directory that has been read. The dates of all entries
/// must be HTTP dates.
pub open spec fn dir_step(
    o: Options,
    r: Request,
    stage: Stage,
    result: Result<Vec<DirEntryInfo>, IoError>,
) -> (Stage, Decision) {
    match result {
        Err(error) => (
            Stage::Done,
            status_only(error::error_status(error.kind, error.raw_os_error)),
        ),
        Ok(entries) => if listing::dates_valid(listed_all(entries@)) {
            (
                Stage::Done,
                Decision::Respond {
                    status: StatusCode::OK,
                    headers: seq![(HeaderName::ContentType, "text/html; charset=utf-8"@)],
                    body: Some(
                        listing::listing_page(
                            url_for(o, r.relative),
                            r.relative.len() == 0,
                            listed_all(entries@),
                        ),
                    ),
                },
            )
        } else {
            (stage, Decision::Fail)
        },
    }
}

fn respond_status(status: StatusCode) -> (res: (Phase, Action))
    ensures
        (res.0@, res.1@) == (Stage::Done, status_only(status)),
{
    let action = Action::Respond { status, headers: Vec::new(), body: None };
    assert(message::fields(Seq::<(HeaderName, String)>::empty()) =~= seq![]);
    (Phase::Done, action)
}

fn submit_open(
    config: &Config,
    request: &RequestData,
    relative: String,
    index: Option<String>,
    ctx: OpenCtx,
) -> (res: Action)
    ensures
        res@ == open_file(config@, request@, relative@, index.deep_view(), ctx@),
{
    let prefetch_len: usize = if !request.method_head && request.range_header.is_none() {
        config.chunk_size
    } else {
        0
    };
    let path = io::locate(&config.root, relative.as_str(), &index);
    let request = OpenRequest {
        path,
        containment_root: Some(config.root.clone()),
        deny_symlinks: !config.follow_symlinks_within_root,
        prefetch_len,
    };
    Action::Open { relative, index, ctx, request }
}

fn open_next_candidate(config: &Config, request: &RequestData, pending: VecDeque<Candidate>) -> (res:
    (Phase, Action))
    ensures
        (res.0@, res.1@) == next_candidate(config@, request@, candidate_views(pending@)),
{
    let mut pending = pending;
    let ghost before = candidate_views(pending@);
    match pending.pop_front() {
        None => respond_status(StatusCode::NOT_FOUND),
        Some(candidate) => {
            assert(candidate_views(pending@) =~= before.skip(1));
            assert(before[0] == (candidate.relative@, candidate.ctx@));
            let action = submit_open(config, request, candidate.relative, None, candidate.ctx);
            (Phase::ResolvingFile { pending }, action)
        },
    }
}

fn fall_back(config: &Config, request: &RequestData, phase: Phase) -> (res: (Phase, Action))
    ensures
        (res.0@, res.1@) == directory_fallback(config@, request@, phase@),
{
    match config.directory {
        DirectoryMode::Listing => {
            let path = io::locate(&config.root, request.relative.as_str(), &None);
            (phase, Action::ReadDir { relative: request.relative.clone(), path })
        },
        DirectoryMode::Index | DirectoryMode::Deny => respond_status(StatusCode::NOT_FOUND),
    }
}

fn open_next_index(
    config: &Config,
    request: &RequestData,
    pending: VecDeque<(String, String)>,
) -> (res: (Phase, Action))
    ensures
        (res.0@, res.1@) == next_index(config@, request@, index_views(pending@)),
{
    let mut pending = pending;
    let ghost before = index_views(pending@);
    match pending.pop_front() {
        None => {
            assert(index_views(pending@) =~= before);
            fall_back(config, request, Phase::ResolvingIndex { names: pending })
        },
        Some((name, content_type)) => {
            assert(index_views(pending@) =~= before.skip(1));
            assert(before[0] == (name@, content_type@));
            let ctx = OpenCtx { encoding: None, content_type, add_vary: false };
            let action = submit_open(config, request, request.relative.clone(), Some(name), ctx);
            (Phase::ResolvingIndex { names: pending }, action)
        },
    }
}

fn request_url(config: &Config, relative: &str) -> (res: String)
    ensures
        res@ == url_for(config@, relative@),
{
    let mut url = match &config.strip_prefix {
        Some(prefix) => prefix.clone(),
        None => String::new(),
    };
    url.push('/');
    url.append(relative);
    assert(url@ =~= url_for(config@, relative@));
    url
}

fn handle_directory(config: &Config, request: &RequestData, phase: Phase) -> (res: (Phase, Action))
    ensures
        (res.0@, res.1@) == directory_step(config@, request@, phase@),
{
    if !request.trailing_slash && config.redirect_trailing_slash {
        let mut location = request_url(config, request.relative.as_str());
        location.push('/');
        let mut headers: Vec<(HeaderName, String)> = Vec::new();
        push_field(&mut headers, HeaderName::Location, location);
        assert(message::fields(headers@) =~= seq![(HeaderName::Location, location@)]);
        return (
            Phase::Done,
            Action::Respond { status: StatusCode::MOVED_PERMANENTLY, headers, body: None },
        );
    }
    if config.directory == DirectoryMode::Deny {
        return respond_status(StatusCode::FORBIDDEN);
    }
    let mut pending: VecDeque<(String, String)> = VecDeque::new();
    let ghost expected = index_candidates(config@);
    let mut i: usize = 0;
    while i < config.index_files.len()
        invariant
            0 <= i <= config.index_files@.len(),
            expected == index_candidates(config@),
            index_views(pending@) == expected.take(i as int),
        decreases config.index_files.len() - i,
    {
        let ghost before = index_views(pending@);
        let name = config.index_files[i].clone();
        let overrides = config.mime_overrides.as_slice();
        let content_type = content_type_for(
            name.as_str(),
            overrides,
            config.default_content_type.as_str(),
        ).to_owned();
        proof {
            assert(overrides.deep_view() =~= config@.mime_overrides);
            assert(config@.index_files[i as int] == name@);
            assert(expected[i as int] == (name@, content_type@));
        }
        pending.push_back((name, content_type));
        proof {
            assert(index_views(pending@) =~= before.push((name@, content_type@)));
            assert(expected.take(i + 1) =~= expected.take(i as int).push(expected[i as int]));
        }
        i += 1;
    }
    assert(expected.take(i as int) =~= expected);
    if pending.len() == 0 {
        return fall_back(config, request, phase);
    }
    open_next_index(config, request, pending)
}

/// Whether a step carries out a planned response: the head is sent, and the
/// body, if there is one, is streamed. A prefetch holds bytes from offset 0 on,
/// so it counts only for a body that is the whole file.
pub open spec fn executed(
    o: Options,
    plan: response_plan::Plan,
    prefetch: Seq<u8>,
    next: Stage,
    decision: Decision,
) -> bool {
    let pieces = stream::body_pieces(plan.body, o.chunk_size);
    let end_stream = pieces.len() == 0;
    &&& decision == (Decision::SendHead { status: plan.status, headers: plan.headers, end_stream })
    &&& end_stream ==> next == Stage::Done
    &&& !end_stream ==> next is Streaming && stream::started(
        next->Streaming_0,
        stream::seeded(
            pieces,
            if plan.body is Whole {
                prefetch
            } else {
                seq![]
            },
        ),
    )
}

/// Whether a step serves an opened file: with the planned response, or not at
/// all where the response holds a value that cannot be sent.
pub open spec fn served(
    o: Options,
    r: Request,
    stage: Stage,
    stat: FileStat,
    ctx: Ctx,
    prefetch: Seq<u8>,
    next: Stage,
    decision: Decision,
) -> bool {
    let facts = serve_facts(o, r, stat, ctx);
    let meta = serve_meta(stat);
    if !response_plan::response_valid(facts, meta) {
        next == stage && decision == Decision::Fail
    } else {
        &&& executed(o, response_plan::planned(facts, meta), prefetch, next, decision)
        &&& response_plan::conditionals_are_answered(facts, meta)
    }
}

fn as_text(value: &Option<String>) -> (res: Option<&str>)
    ensures
        validators::text_of(res) == value.deep_view(),
{
    match value {
        Some(text) => Some(text.as_str()),
        None => None,
    }
}

fn boundary_for(stat: &FileStat) -> (res: String)
    ensures
        res@ == boundary_text(stat.size, stat.mtime_unix),
{
    let mut boundary = "envoyfilesboundary".to_owned();
    boundary.append(text::format_hexadecimal_padded(stat.size, 16).as_str());
    boundary.append(
        text::format_hexadecimal_padded(validators::bit_pattern(stat.mtime_unix), 16).as_str(),
    );
    boundary
}

fn serve_file(
    config: &Config,
    request: &RequestData,
    phase: Phase,
    stat: FileStat,
    ctx: OpenCtx,
    prefetch: Vec<u8>,
) -> (res: (Phase, Action))
    requires
        config.chunk_size > 0,
    ensures
        served(config@, request@, phase@, stat, ctx@, prefetch@, res.0@, res.1@),
{
    let range_header = if config.ranges == RangeSupport::Off {
        None
    } else {
        as_text(&request.range_header)
    };
    let facts = RequestFacts {
        method_head: request.method_head,
        conditionals: ConditionalHeaders {
            if_none_match: as_text(&request.if_none_match),
            if_modified_since: as_text(&request.if_modified_since),
            if_match: as_text(&request.if_match),
            if_unmodified_since: as_text(&request.if_unmodified_since),
            if_range: as_text(&request.if_range),
        },
        range_header,
        content_type: ctx.content_type,
        etag_enabled: config.etag,
        last_modified_enabled: config.last_modified,
        range_policy: RangePolicy {
            allow_multi: config.ranges == RangeSupport::Multi,
            max_parts: MAX_PARTS,
        },
        boundary: boundary_for(&stat),
        content_encoding: ctx.encoding,
        add_vary: ctx.add_vary,
        cache_control: as_text(&config.cache_control),
    };
    let meta = FileMeta {
        size: stat.size,
        mtime_unix: stat.mtime_unix,
        mtime_nanos: stat.mtime_nanos,
        is_dir: false,
    };
    assert(facts@ == serve_facts(config@, request@, stat, ctx@));
    let plan = match try_plan_response(&facts, &meta) {
        Some(plan) => plan,
        None => return (phase, Action::Fail),
    };
    proof {
        response_plan::law_body_lies_within_the_file(facts@, meta);
        assert(stream::body_addressable(plan.body@));
    }
    execute_plan(config, plan, prefetch)
}

fn execute_plan(config: &Config, plan: ResponsePlan, prefetch: Vec<u8>) -> (res: (Phase, Action))
    requires
        config.chunk_size > 0,
        stream::body_addressable(plan.body@),
    ensures
        executed(config@, plan@, prefetch@, res.0@, res.1@),
{
    let status = plan.status;
    let headers = plan.headers;
    // The prefetch (if any) holds bytes from offset 0 on and is only valid
    // for a body that streams from there — a Whole plan, which is also the
    // only case a prefetch was asked for.
    let seed = match &plan.body {
        BodyPlan::Whole { .. } => prefetch,
        _ => Vec::new(),
    };
    let chunks = body_chunks(plan.body, config.chunk_size);
    assert(stream::piece_views(chunks@).len() == chunks@.len());
    match Streaming::begin(chunks, seed) {
        None => (Phase::Done, Action::SendHead { status, headers, end_stream: true }),
        Some(streaming) => {
            (Phase::Streaming(streaming), Action::SendHead { status, headers, end_stream: false })
        },
    }
}

fn are_dates_valid(entries: &Vec<DirEntry>) -> (res: bool)
    ensures
        res == listing::dates_valid(listing::entry_views(entries@)),
{
    let ghost views = listing::entry_views(entries@);
    let mut i: usize = 0;
    while i < entries.len()
        invariant
            0 <= i <= entries.len(),
            views == listing::entry_views(entries@),
            forall|j: int|
                0 <= j < i ==> validators::has_http_date((#[trigger] views[j]).mtime_unix),
        decreases entries.len() - i,
    {
        let unix: i64 = entries[i].mtime_unix;
        if unix < 0 || unix as u64 >= validators::HTTP_DATE_END {
            assert(!validators::has_http_date(views[i as int].mtime_unix));
            return false;
        }
        i += 1;
    }
    true
}

fn handle_dir(
    config: &Config,
    request: &RequestData,
    phase: Phase,
    result: Result<Vec<DirEntryInfo>, IoError>,
) -> (res: (Phase, Action))
    ensures
        (res.0@, res.1@) == dir_step(config@, request@, phase@, result),
{
    let infos = match result {
        Ok(infos) => infos,
        Err(error) => return respond_status(status_for_io_error(error.kind, error.raw_os_error)),
    };
    let ghost given = infos@;
    let ghost expected = listed_all(given);
    let mut entries: Vec<DirEntry> = Vec::new();
    for info in it: infos
        invariant
            it.seq() == given,
            expected == listed_all(given),
            listing::entry_views(entries@) == expected.take(it.index() as int),
    {
        let ghost i = it.index() as int;
        let ghost before = listing::entry_views(entries@);
        let entry = DirEntry {
            name: info.name,
            is_dir: info.is_dir,
            size: info.size,
            mtime_unix: info.mtime_unix,
        };
        proof {
            assert(info == given[i]);
            assert(expected[i] == entry@);
            assert(expected.take(i + 1) =~= expected.take(i).push(expected[i]));
        }
        entries.push(entry);
        assert(listing::entry_views(entries@) =~= before.push(entry@));
    }
    assert(expected.take(given.len() as int) =~= expected);
    if !are_dates_valid(&entries) {
        return (phase, Action::Fail);
    }
    let url_path = request_url(config, request.relative.as_str());
    let at_root = request.relative.as_str().is_empty();
    let html = render_listing(url_path.as_str(), at_root, entries.as_slice());
    let mut headers: Vec<(HeaderName, String)> = Vec::new();
    push_field(&mut headers, HeaderName::ContentType, "text/html; charset=utf-8".to_owned());
    assert(message::fields(headers@) =~= seq![
        (HeaderName::ContentType, "text/html; charset=utf-8"@),
    ]);
    (Phase::Done, Action::Respond { status: StatusCode::OK, headers, body: Some(html) })
}

fn build_file_candidates<F: Fn(&str) -> Option<u32>>(
    config: &Config,
    relative: &str,
    trailing_slash: bool,
    accept_encoding: Option<&str>,
    parse_quality: F,
) -> (res: VecDeque<Candidate>)
    requires
        forall|s: &str| call_requires(parse_quality, (s,)),
    ensures
        forall|number: spec_fn(Seq<char>) -> Option<u32>| #[trigger]
            encoding::describes(parse_quality, number) ==> candidate_views(res@)
                == file_candidates(
                config@,
                relative@,
                trailing_slash,
                validators::text_of(accept_encoding),
                number,
            ),
        res@.len() > 0,
        trailing_slash || accept_encoding is None ==> candidate_views(res@) == file_candidates(
            config@,
            relative@,
            trailing_slash,
            validators::text_of(accept_encoding),
            encoding::no_quality(),
        ),
{
    let overrides = config.mime_overrides.as_slice();
    let content_type = content_type_for(
        relative,
        overrides,
        config.default_content_type.as_str(),
    ).to_owned();
    assert(overrides.deep_view() =~= config@.mime_overrides);
    let accepted = if trailing_slash {
        Vec::new()
    } else {
        negotiate_precompressed(accept_encoding, config.precompressed.as_slice(), parse_quality)
    };
    let ghost variants = encoding::encoding_views(accepted@);
    let ghost expected = variants.map_values(
        |e: (Seq<char>, Seq<char>)|
            (
                relative@ + e.0,
                Ctx { encoding: Some(e.1), content_type: content_type@, add_vary: true },
            ),
    );
    assert(trailing_slash || accept_encoding is None ==> variants =~= seq![]);
    let mut candidates: VecDeque<Candidate> = VecDeque::new();
    let mut i: usize = 0;
    while i < accepted.len()
        invariant
            0 <= i <= accepted.len(),
            variants == encoding::encoding_views(accepted@),
            expected == variants.map_values(
                |e: (Seq<char>, Seq<char>)|
                    (
                        relative@ + e.0,
                        Ctx { encoding: Some(e.1), content_type: content_type@, add_vary: true },
                    ),
            ),
            candidate_views(candidates@) == expected.take(i as int),
        decreases accepted.len() - i,
    {
        let ghost before = candidate_views(candidates@);
        let mut path = relative.to_owned();
        path.append(accepted[i].file_suffix);
        let candidate = Candidate {
            relative: path,
            ctx: OpenCtx {
                encoding: Some(accepted[i].content_encoding),
                content_type: content_type.clone(),
                add_vary: true,
            },
        };
        candidates.push_back(candidate);
        proof {
            assert(variants[i as int] == (
                accepted@[i as int].file_suffix@,
                accepted@[i as int].content_encoding@,
            ));
            assert(expected[i as int] == (candidate.relative@, candidate.ctx@));
            assert(candidate_views(candidates@) =~= before.push(expected[i as int]));
            assert(expected.take(i + 1) =~= expected.take(i as int).push(expected[i as int]));
        }
        i += 1;
    }
    assert(expected.take(i as int) =~= expected);
    let last = Candidate {
        relative: relative.to_owned(),
        ctx: OpenCtx { encoding: None, content_type, add_vary: accepted.len() > 0 },
    };
    candidates.push_back(last);
    assert(candidate_views(candidates@) =~= expected.push((last.relative@, last.ctx@)));
    candidates
}

/// One request on its way through the server.
pub struct Filter {
    pub config: Arc<Config>,
    pub request: Option<RequestData>,
    pub phase: Phase,
}

/// What to send or read next while a body is streamed.
pub enum PumpStep {
    /// Send body bytes, then pump again unless they end the stream.
    Send { bytes: Vec<u8>, end_stream: bool },
    /// Start these reads.
    Read(Vec<ReadTask>),
    /// Nothing to do.
    Idle,
}

impl Filter {
    /// Chunks are not empty, reading ahead is possible, and a stream reads no
    /// further ahead than it may.
    pub open spec fn wf(self) -> bool {
        &&& self.config.chunk_size > 0
        &&& self.config.max_inflight_reads > 0
        &&& self.phase matches Phase::Streaming(streaming) ==> streaming.wf() && streaming.window
            <= self.config.max_inflight_reads
    }

    /// A filter for a new request.
    pub fn new(config: Arc<Config>) -> (res: Self)
        requires
            config.chunk_size > 0,
            config.max_inflight_reads > 0,
        ensures
            res.wf(),
            res.config == config,
            res.request is None,
            res.phase is Idle,
    {
        Filter { config, request: None, phase: Phase::Idle }
    }

    /// Takes in the head of the request.
    pub fn on_request_headers<F: Fn(&str) -> Option<u32>>(
        &mut self,
        head: RequestHead,
        parse_quality: F,
    ) -> (res: Action)
        requires
            old(self).wf(),
            forall|s: &str| call_requires(parse_quality, (s,)),
        ensures
            final(self).wf(),
            final(self).config == old(self).config,
            forall|number: spec_fn(Seq<char>) -> Option<u32>| #[trigger]
                encoding::describes(parse_quality, number) ==> {
                    let (request, stage, decision) = request_step(
                        old(self).config@,
                        head,
                        number,
                    );
                    &&& final(self).phase@ == stage
                    &&& res@ == decision
                    &&& match request {
                        Some(r) => final(self).request is Some && final(self).request->0@ == r,
                        None => final(self).request == old(self).request,
                    }
                },
            // Nothing but the order of the variants depends on how qualities
            // are read.
            ({
                let (request, stage, decision) = request_step(
                    old(self).config@,
                    head,
                    encoding::no_quality(),
                );
                &&& match request {
                    Some(r) => final(self).request is Some && final(self).request->0@ == r,
                    None => final(self).request == old(self).request,
                }
                &&& if negotiates(old(self).config@, head) {
                    final(self).phase@ is ResolvingFile && res@ is Open && stays_inside(
                        old(self).config@,
                        res@,
                    )
                } else {
                    final(self).phase@ == stage && res@ == decision
                }
            }),
    {
        let method_head = check_method(&head.method, "HEAD");
        if !method_head && !check_method(&head.method, "GET") {
            let mut headers: Vec<(HeaderName, String)> = Vec::new();
            push_field(&mut headers, HeaderName::Allow, "GET, HEAD".to_owned());
            assert(message::fields(headers@) =~= seq![(HeaderName::Allow, "GET, HEAD"@)]);
            self.phase = Phase::Done;
            return Action::Respond {
                status: StatusCode::METHOD_NOT_ALLOWED,
                headers,
                body: None,
            };
        }
        let path = match mounted_request_path(&self.config, &head.path) {
            Some(path) => path,
            None => {
                // Path isn't under this mount's prefix; nothing to serve.
                let (phase, action) = respond_status(StatusCode::NOT_FOUND);
                self.phase = phase;
                return action;
            },
        };
        let policy = PathPolicy {
            serve_dotfiles: self.config.serve_dotfiles,
            max_path_len: MAX_PATH_LEN,
        };
        let (relative, trailing_slash) = match resolve_request_path(path.as_str(), &policy) {
            ValidatedPath::Accept { relative, trailing_slash } => (relative, trailing_slash),
            ValidatedPath::Reject(reason) => {
                let (phase, action) = respond_status(status_for_rejection(reason));
                self.phase = phase;
                return action;
            },
        };
        let accept_encoding = header_string(&head.accept_encoding);
        let request = RequestData {
            method_head,
            if_none_match: header_string(&head.if_none_match),
            if_modified_since: header_string(&head.if_modified_since),
            if_match: header_string(&head.if_match),
            if_unmodified_since: header_string(&head.if_unmodified_since),
            if_range: header_string(&head.if_range),
            range_header: header_string(&head.range),
            relative: relative.clone(),
            trailing_slash,
        };
        assert(request@ == kept_request(head, relative@, trailing_slash));
        let pending = build_file_candidates(
            &self.config,
            relative.as_str(),
            trailing_slash,
            as_text(&accept_encoding),
            parse_quality,
        );
        let (phase, action) = open_next_candidate(&self.config, &request, pending);
        self.phase = phase;
        self.request = Some(request);
        action
    }

    /// Takes the phase out, to be replaced by what follows it.
    fn take_phase(&mut self) -> (res: Phase)
        ensures
            res == old(self).phase,
            final(self).phase is Done,
            final(self).config == old(self).config,
            final(self).request == old(self).request,
    {
        let mut phase = Phase::Done;
        std::mem::swap(&mut self.phase, &mut phase);
        phase
    }

    /// A file has been opened, with bytes prefetched from offset 0 (empty if
    /// none).
    pub fn on_opened(&mut self, stat: FileStat, ctx: OpenCtx, prefetch: Vec<u8>) -> (res: Action)
        requires
            old(self).wf(),
            old(self).request is Some,
        ensures
            final(self).wf(),
            final(self).config == old(self).config,
            final(self).request == old(self).request,
            ({
                let o = old(self).config@;
                let r = old(self).request->0@;
                let stage = old(self).phase@;
                if stat.is_dir {
                    (final(self).phase@, res@) == opened_directory_step(
                        o,
                        r,
                        stage,
                        ctx.encoding is Some,
                    )
                } else {
                    served(o, r, stage, stat, ctx@, prefetch@, final(self).phase@, res@)
                }
            }),
    {
        let phase = self.take_phase();
        let request = match &self.request {
            Some(request) => request,
            None => return Action::Wait,
        };
        let (next, action) = if stat.is_dir {
            match phase {
                // An index file that is a directory is no index file.
                Phase::ResolvingIndex { names } => open_next_index(&self.config, request, names),
                other => if ctx.encoding.is_some() {
                    // A precompressed path resolved to a directory; ignore it.
                    match other {
                        Phase::ResolvingFile { pending } => open_next_candidate(
                            &self.config,
                            request,
                            pending,
                        ),
                        other => (other, Action::Wait),
                    }
                } else {
                    handle_directory(&self.config, request, other)
                },
            }
        } else {
            serve_file(&self.config, request, phase, stat, ctx, prefetch)
        };
        self.phase = next;
        action
    }

    /// A file could not be opened.
    pub fn on_open_error(&mut self, error: IoError) -> (res: Action)
        requires
            old(self).wf(),
            old(self).request is Some,
        ensures
            final(self).wf(),
            final(self).config == old(self).config,
            final(self).request == old(self).request,
            (final(self).phase@, res@) == open_error_step(
                old(self).config@,
                old(self).request->0@,
                old(self).phase@,
                error,
            ),
    {
        let phase = self.take_phase();
        let request = match &self.request {
            Some(request) => request,
            None => return Action::Wait,
        };
        let (next, action) = match phase {
            Phase::ResolvingFile { pending } => {
                assert(candidate_views(pending@).len() == pending@.len());
                if pending.len() > 0 {
                    open_next_candidate(&self.config, request, pending)
                } else {
                    respond_status(status_for_io_error(error.kind, error.raw_os_error))
                }
            },
            Phase::ResolvingIndex { names } => open_next_index(&self.config, request, names),
            other => (other, Action::Wait),
        };
        self.phase = next;
        action
    }

    /// A directory has been read.
    pub fn on_dir(&mut self, result: Result<Vec<DirEntryInfo>, IoError>) -> (res: Action)
        requires
            old(self).wf(),
            old(self).request is Some,
        ensures
            final(self).wf(),
            final(self).config == old(self).config,
            final(self).request == old(self).request,
            (final(self).phase@, res@) == dir_step(
                old(self).config@,
                old(self).request->0@,
                old(self).phase@,
                result,
            ),
    {
        let phase = self.take_phase();
        let request = match &self.request {
            Some(request) => request,
            None => return Action::Wait,
        };
        let (next, action) = handle_dir(&self.config, request, phase, result);
        self.phase = next;
        action
    }

    /// A read for chunk `seq` has come back. What it brings is sent by
    /// [`Filter::pump`]; an error ends the stream.
    pub fn on_read(&mut self, seq: usize, result: Result<Vec<u8>, IoError>) -> (res: Action)
        requires
            old(self).wf(),
        ensures
            final(self).wf(),
            final(self).config == old(self).config,
            final(self).request == old(self).request,
            read_done(old(self).phase@, seq, result, final(self).phase@, res@),
            match old(self).phase {
                Phase::Streaming(before) => match result {
                    Ok(bytes) => res@ == Decision::Wait && final(self).phase is Streaming && (
                    if before.awaits(seq) {
                        stream::accepted(before, seq, bytes, final(self).phase->Streaming_0)
                    } else {
                        final(self).phase->Streaming_0 == before
                    }),
                    Err(_) => res@ == Decision::Truncate && final(self).phase is Done,
                },
                _ => res@ == Decision::Wait && final(self).phase == old(self).phase,
            },
    {
        let phase = self.take_phase();
        match phase {
            Phase::Streaming(mut streaming) => match result {
                Ok(bytes) => {
                    streaming.accept(seq, bytes);
                    self.phase = Phase::Streaming(streaming);
                    Action::Wait
                },
                Err(_) => Action::Truncate,
            },
            other => {
                self.phase = other;
                Action::Wait
            },
        }
    }

    /// Says what to send or read next. To be called until it has nothing more
    /// to send: what is sent may call back into the watermark hooks, and after
    /// the end of the stream the filter may be gone.
    pub fn pump(&mut self) -> (res: PumpStep)
        requires
            old(self).wf(),
        ensures
            final(self).wf(),
            final(self).config == old(self).config,
            final(self).request == old(self).request,
            pumped(
                old(self).phase@,
                old(self).config.max_inflight_reads,
                res,
                final(self).phase@,
            ),
            match old(self).phase {
                Phase::Streaming(before) if before.watermark_depth == 0 => {
                    if before.ready@.contains_key(before.next_send) {
                        &&& res matches PumpStep::Send { bytes, end_stream }
                        &&& bytes == before.ready@[before.next_send]
                        &&& end_stream == (before.next_send == before.chunks@.len() - 1)
                        &&& end_stream ==> final(self).phase is Done
                        &&& !end_stream ==> final(self).phase is Streaming && stream::took(
                            before,
                            bytes,
                            false,
                            final(self).phase->Streaming_0,
                        )
                    } else {
                        &&& res matches PumpStep::Read(tasks)
                        &&& final(self).phase is Streaming
                        &&& stream::issued(
                            before,
                            old(self).config.max_inflight_reads,
                            tasks@,
                            final(self).phase->Streaming_0,
                        )
                    }
                },
                _ => res is Idle && final(self).phase == old(self).phase,
            },
    {
        let max: usize = self.config.max_inflight_reads;
        let phase = self.take_phase();
        match phase {
            Phase::Streaming(mut streaming) => {
                if streaming.watermark_depth != 0 {
                    self.phase = Phase::Streaming(streaming);
                    return PumpStep::Idle;
                }
                match streaming.take_next() {
                    Some((bytes, end_stream)) => {
                        if !end_stream {
                            self.phase = Phase::Streaming(streaming);
                        }
                        PumpStep::Send { bytes, end_stream }
                    },
                    None => {
                        let tasks = streaming.issue_reads(max);
                        self.phase = Phase::Streaming(streaming);
                        PumpStep::Read(tasks)
                    },
                }
            },
            other => {
                self.phase = other;
                PumpStep::Idle
            },
        }
    }

    /// The client takes no more for now.
    pub fn on_above_high_watermark(&mut self)
        requires
            old(self).wf(),
        ensures
            final(self).wf(),
            final(self).config == old(self).config,
            final(self).request == old(self).request,
            old(self).phase matches Phase::Streaming(before) ==> final(self).phase@
                == Stage::Streaming(stream::held_up(before)),
            match old(self).phase {
                Phase::Streaming(before) => final(self).phase is Streaming && (
                final(self).phase->Streaming_0 == Streaming {
                    watermark_depth: if before.watermark_depth < usize::MAX {
                        (before.watermark_depth + 1) as usize
                    } else {
                        before.watermark_depth
                    },
                    ..before
                }),
                _ => final(self).phase == old(self).phase,
            },
    {
        let phase = self.take_phase();
        match phase {
            Phase::Streaming(mut streaming) => {
                if streaming.watermark_depth < usize::MAX {
                    streaming.watermark_depth = streaming.watermark_depth + 1;
                }
                self.phase = Phase::Streaming(streaming);
            },
            other => {
                self.phase = other;
            },
        }
    }

    /// The client takes more again. Says whether streaming resumes.
    pub fn on_below_low_watermark(&mut self) -> (res: bool)
        requires
            old(self).wf(),
        ensures
            final(self).wf(),
            final(self).config == old(self).config,
            final(self).request == old(self).request,
            old(self).phase matches Phase::Streaming(before) ==> final(self).phase@
                == Stage::Streaming(stream::let_go(before)) && res == (stream::let_go(
                before,
            ).watermark_depth == 0),
            match old(self).phase {
                Phase::Streaming(before) => {
                    &&& final(self).phase is Streaming
                    &&& final(self).phase->Streaming_0 == Streaming {
                        watermark_depth: if before.watermark_depth > 0 {
                            (before.watermark_depth - 1) as usize
                        } else {
                            0
                        },
                        ..before
                    }
                    &&& res == (before.watermark_depth <= 1)
                },
                _ => final(self).phase == old(self).phase && !res,
            },
    {
        let phase = self.take_phase();
        match phase {
            Phase::Streaming(mut streaming) => {
                if streaming.watermark_depth > 0 {
                    streaming.watermark_depth = streaming.watermark_depth - 1;
                }
                let resumed = streaming.watermark_depth == 0;
                self.phase = Phase::Streaming(streaming);
                resumed
            },
            other => {
                self.phase = other;
                false
            },
        }
    }
}

fn mounted_request_path(config: &Config, path: &Option<Vec<u8>>) -> (res: Option<String>)
    ensures
        res.deep_view() == request_path(config@, bytes_of(*path)),
{
    let raw = match header_string(path) {
        Some(raw) => raw,
        None => {
            let empty = String::new();
            assert(empty@ =~= seq![]);
            empty
        },
    };
    match &config.strip_prefix {
        Some(prefix) => strip_mount_prefix(raw.as_str(), prefix.as_str()),
        None => Some(raw),
    }
}

/// Every method but GET and HEAD is answered with 405 and the list of the two.
pub proof fn law_other_methods_are_not_allowed(
    o: Options,
    head: RequestHead,
    number: spec_fn(Seq<char>) -> Option<u32>,
)
    requires
        !is_method(bytes_of(head.method), "GET"@),
        !is_method(bytes_of(head.method), "HEAD"@),
    ensures
        request_step(o, head, number) == (
            None::<Request>,
            Stage::Done,
            Decision::Respond {
                status: StatusCode::METHOD_NOT_ALLOWED,
                headers: seq![(HeaderName::Allow, "GET, HEAD"@)],
                body: None,
            },
        ),
{
}

/// The file itself is always tried last, without an encoding; every candidate
/// before it is that file with the suffix of an encoding, and marks the
/// response as varying.
pub proof fn law_identity_is_tried_last(
    o: Options,
    relative: Seq<char>,
    trailing_slash: bool,
    accept_encoding: Option<Seq<char>>,
    number: spec_fn(Seq<char>) -> Option<u32>,
)
    ensures
        ({
            let candidates = file_candidates(o, relative, trailing_slash, accept_encoding, number);
            &&& candidates.len() > 0
            &&& candidates.last().0 == relative
            &&& candidates.last().1.encoding is None
            &&& candidates.last().1.add_vary == (candidates.len() > 1)
            &&& trailing_slash || accept_encoding is None ==> candidates.len() == 1
            &&& forall|i: int|
                0 <= i < candidates.len() - 1 ==> text::has_prefix(
                    (#[trigger] candidates[i]).0,
                    relative,
                ) && candidates[i].1.encoding is Some && candidates[i].1.add_vary
        }),
{
    let candidates = file_candidates(o, relative, trailing_slash, accept_encoding, number);
    let accepted = encoding::negotiated(accept_encoding, o.precompressed, number);
    assert forall|i: int| 0 <= i < candidates.len() - 1 implies text::has_prefix(
        (#[trigger] candidates[i]).0,
        relative,
    ) && candidates[i].1.encoding is Some && candidates[i].1.add_vary by {
        assert(candidates[i].0 == relative + accepted[i].0);
        assert(candidates[i].0.take(relative.len() as int) =~= relative);
    }
}

/// How many opens a search can still take: each candidate that is left, and
/// then the index files, should the last one be a directory.
pub open spec fn opens_left(o: Options, stage: Stage) -> nat {
    match stage {
        Stage::ResolvingFile { pending } => pending.len() + o.index_files.len() + 1,
        Stage::ResolvingIndex { names } => names.len(),
        _ => 0,
    }
}

/// Every search comes to an end, whatever is found: after a file that cannot
/// be opened and after one that is a directory there are fewer opens left, or
/// the search is over, with a response or with the directory being read for a
/// listing. What has been read is answered.
pub proof fn law_searches_come_to_an_end(
    o: Options,
    r: Request,
    stage: Stage,
    error: IoError,
    encoded: bool,
    result: Result<Vec<DirEntryInfo>, IoError>,
)
    requires
        stage is ResolvingFile || stage is ResolvingIndex,
    ensures
        ({
            let (next, decision) = open_error_step(o, r, stage, error);
            ||| decision is Open && opens_left(o, next) < opens_left(o, stage)
            ||| decision is ReadDir && o.directory == DirectoryMode::Listing
            ||| decision is Respond && next == Stage::Done
        }),
        ({
            let (next, decision) = opened_directory_step(o, r, stage, encoded);
            ||| decision is Open && opens_left(o, next) < opens_left(o, stage)
            ||| decision is ReadDir && o.directory == DirectoryMode::Listing
            ||| decision is Respond && next == Stage::Done
        }),
        ({
            let (next, decision) = dir_step(o, r, stage, result);
            decision is Respond || decision is Fail
        }),
{
}

/// Whatever happens, nothing is asked for but what lies below the root, and no
/// open may lead out of it.
pub proof fn law_requests_stay_inside_the_root(
    o: Options,
    head: RequestHead,
    number: spec_fn(Seq<char>) -> Option<u32>,
    r: Request,
    stage: Stage,
    error: IoError,
    encoded: bool,
    result: Result<Vec<DirEntryInfo>, IoError>,
)
    ensures
        stays_inside(o, request_step(o, head, number).2),
        stays_inside(o, open_error_step(o, r, stage, error).1),
        stays_inside(o, opened_directory_step(o, r, stage, encoded).1),
        stays_inside(o, dir_step(o, r, stage, result).1),
{
}

/// An index file that is a directory counts as missing: once none is left, the
/// directory is listed, or not found where listings are off.
pub proof fn law_directories_are_no_index_files(
    o: Options,
    r: Request,
    names: Seq<(Seq<char>, Seq<char>)>,
    error: IoError,
    encoded: bool,
)
    ensures
        ({
            let stage = Stage::ResolvingIndex { names };
            let step = opened_directory_step(o, r, stage, encoded);
            &&& step == open_error_step(o, r, stage, error)
            &&& names.len() == 0 && o.directory != DirectoryMode::Listing ==> step == (
                Stage::Done,
                status_only(StatusCode::NOT_FOUND),
            )
        }),
{
}

/// A complete response is given once: the request is done with it.
pub proof fn law_a_response_finishes_the_request(
    o: Options,
    r: Request,
    stage: Stage,
    error: IoError,
    result: Result<Vec<DirEntryInfo>, IoError>,
)
    ensures
        ({
            let (next, decision) = open_error_step(o, r, stage, error);
            decision is Respond ==> next == Stage::Done
        }),
        ({
            let (next, decision) = open_miss_step(o, r, stage);
            decision is Respond ==> next == Stage::Done
        }),
        ({
            let (next, decision) = directory_step(o, r, stage);
            decision is Respond ==> next == Stage::Done
        }),
        ({
            let (next, decision) = dir_step(o, r, stage, result);
            decision is Respond ==> next == Stage::Done
        }),
{
}

/// A directory without a trailing slash in its path is redirected to the path
/// with one, through the mount that the request came by.
pub proof fn law_directories_redirect_to_a_trailing_slash(o: Options, r: Request, stage: Stage)
    requires
        !r.trailing_slash,
        o.redirect_trailing_slash,
    ensures
        directory_step(o, r, stage) == (
            Stage::Done,
            Decision::Respond {
                status: StatusCode::MOVED_PERMANENTLY,
                headers: seq![(HeaderName::Location, url_for(o, r.relative).push('/'))],
                body: None,
            },
        ),
{
}

/// A directory that is not redirected is forbidden where directories are
/// denied. Otherwise its index files are tried in order, and a directory
/// without any of them is listed, or not found where listings are off.
pub proof fn law_directory_mode_decides(o: Options, r: Request, stage: Stage, error: IoError)
    requires
        r.trailing_slash || !o.redirect_trailing_slash,
    ensures
        ({
            let (next, decision) = directory_step(o, r, stage);
            &&& o.directory == DirectoryMode::Deny ==> decision == status_only(
                StatusCode::FORBIDDEN,
            )
            &&& o.directory != DirectoryMode::Deny && o.index_files.len() > 0 ==> next
                == Stage::ResolvingIndex { names: index_candidates(o).skip(1) } && (
            decision matches Decision::Open { relative, index, .. } && relative == r.relative
                && index == Some(o.index_files[0]))
            &&& o.directory == DirectoryMode::Listing && o.index_files.len() == 0 ==> decision
                == read_dir(o, r)
            &&& o.directory == DirectoryMode::Index && o.index_files.len() == 0 ==> decision
                == status_only(StatusCode::NOT_FOUND)
        }),
        stage matches Stage::ResolvingIndex { names } ==> ({
            let (next, decision) = open_error_step(o, r, stage, error);
            &&& names.len() > 0 ==> (decision matches Decision::Open { relative, index, .. }
                && relative == r.relative && index == Some(names[0].0))
            &&& names.len() == 0 && o.directory == DirectoryMode::Listing ==> decision
                == read_dir(o, r)
            &&& names.len() == 0 && o.directory != DirectoryMode::Listing ==> decision
                == status_only(StatusCode::NOT_FOUND)
        }),
{
}

/// A path that was cut from under a mount prefix is put back by it.
pub proof fn law_mount_prefix_is_restored(o: Options, raw: Seq<char>, prefix: Seq<char>)
    requires
        o.strip_prefix == Some(prefix),
        mounted_path(raw, prefix) is Some,
        raw.len() > prefix.len(),
        raw[prefix.len() as int] == '/',
    ensures
        url_for(o, (mounted_path(raw, prefix)->0).skip(1)) == raw,
{
    let path = mounted_path(raw, prefix)->0;
    assert(path =~= raw.skip(prefix.len() as int));
    assert(raw.take(prefix.len() as int) == prefix);
    assert(prefix + seq!['/'] + path.skip(1) =~= raw);
}

/// What is streamed for an opened file is exactly the planned body, and the
/// `Content-Length` that was sent is its length.
pub proof fn law_streamed_bytes_are_the_planned_body(
    o: Options,
    r: Request,
    stage: Stage,
    stat: FileStat,
    ctx: Ctx,
    prefetch: Seq<u8>,
    next: Stage,
    decision: Decision,
    file: Seq<u8>,
)
    requires
        0 < o.chunk_size <= usize::MAX,
        response_plan::response_valid(serve_facts(o, r, stat, ctx), serve_meta(stat)),
        served(o, r, stage, stat, ctx, prefetch, next, decision),
        next is Streaming,
        file.len() == stat.size,
        prefetch.len() <= file.len(),
        prefetch == file.take(prefetch.len() as int),
    ensures
        ({
            let plan = response_plan::planned(serve_facts(o, r, stat, ctx), serve_meta(stat));
            let bytes = stream::stream_bytes(
                stream::piece_views((next->Streaming_0).chunks@),
                file,
            );
            &&& bytes == stream::body_bytes(plan.body, file)
            &&& plan.headers.last() == (
                HeaderName::ContentLength,
                text::decimal(bytes.len()),
            )
            &&& decision == (Decision::SendHead {
                status: plan.status,
                headers: plan.headers,
                end_stream: false,
            })
        }),
{
    let facts = serve_facts(o, r, stat, ctx);
    let meta = serve_meta(stat);
    let plan = response_plan::planned(facts, meta);
    let pieces = stream::body_pieces(plan.body, o.chunk_size);
    response_plan::law_body_lies_within_the_file(facts, meta);
    assert(stream::body_within(plan.body, file.len() as int));
    stream::law_chunks_make_up_the_body(plan.body, o.chunk_size, file);
    stream::law_body_has_its_planned_length(plan.body, file);
    response_plan::law_content_length_is_body_length(
        facts,
        meta,
        response_plan::request_condition(facts, meta),
        response_plan::range_counts(facts, meta),
    );
    if plan.body is Whole {
        stream::law_prefetch_keeps_the_body(pieces, prefetch, file);
    } else {
        assert(file.take(0) =~= Seq::<u8>::empty());
        stream::law_prefetch_keeps_the_body(pieces, seq![], file);
    }
}

/// A mount prefix is cut off at the end of a segment: what is left is the path
/// below the mount, with a slash in front where it has none. Other paths are not
/// under the mount.
pub proof fn law_mounts_end_at_a_segment(prefix: Seq<char>, rest: Seq<char>, raw: Seq<char>)
    ensures
        rest.len() == 0 ==> mounted_path(prefix + rest, prefix) == Some("/"@),
        rest.len() > 0 && rest[0] == '/' ==> mounted_path(prefix + rest, prefix) == Some(rest),
        rest.len() > 0 && (rest[0] == '?' || rest[0] == '#') ==> mounted_path(
            prefix + rest,
            prefix,
        ) == Some("/"@ + rest),
        rest.len() > 0 && rest[0] != '/' && rest[0] != '?' && rest[0] != '#' ==> mounted_path(
            prefix + rest,
            prefix,
        ) is None,
        mounted_path(raw, prefix) is Some ==> raw.len() >= prefix.len() && raw.take(
            prefix.len() as int,
        ) == prefix,
{
    reveal_strlit("/");
    assert("/"@ =~= seq!['/']);
    assert((prefix + rest).skip(prefix.len() as int) =~= rest);
    assert((prefix + rest).take(prefix.len() as int) =~= prefix);
}

/// A path that is too long is answered 414, one that cannot be a path 400, and
/// one that is not to be found 404.
pub proof fn law_rejections_are_told_apart(reason: RejectReason)
    ensures
        reject_status(reason).number() == 414 <==> reason == RejectReason::TooLong,
        reject_status(reason).number() == 400 <==> reason == RejectReason::BadEncoding || reason
            == RejectReason::BadCharacter,
        reject_status(reason).number() == 404 <==> reason == RejectReason::Traversal || reason
            == RejectReason::Dotfile,
{
}

/// A header field counts exactly if its text is not empty.
pub proof fn law_empty_fields_count_as_absent(bytes: Seq<u8>)
    ensures
        header_text(None) is None,
        lossy_text(bytes).len() == 0 ==> header_text(Some(bytes)) is None,
        lossy_text(bytes).len() > 0 ==> header_text(Some(bytes)) == Some(lossy_text(bytes)),
{
}

/// A GET or HEAD for a path outside the mount is not found, and one for a path
/// that is rejected is answered for that reason. Every other one is kept, with
/// the fields that it was sent with, and the first of the files that may be
/// meant is opened. A request without a path is one for the root.
pub proof fn law_requests_are_resolved(
    o: Options,
    head: RequestHead,
    number: spec_fn(Seq<char>) -> Option<u32>,
)
    requires
        is_method(bytes_of(head.method), "GET"@) || is_method(bytes_of(head.method), "HEAD"@),
    ensures
        ({
            let (kept, stage, decision) = request_step(o, head, number);
            let text = match header_text(bytes_of(head.path)) {
                Some(text) => text,
                None => ""@,
            };
            let path = match o.strip_prefix {
                Some(prefix) => mounted_path(text, prefix),
                None => Some(text),
            };
            let resolved = path::resolution(path->0, o.serve_dotfiles, 4096);
            let not_found = Decision::Respond {
                status: StatusCode::NOT_FOUND,
                headers: seq![],
                body: None,
            };
            &&& path is None ==> kept is None && stage is Done && decision == not_found
            &&& path is Some ==> match resolved {
                Resolution::Reject(reason) => {
                    &&& kept is None
                    &&& stage is Done
                    &&& decision == Decision::Respond {
                        status: reject_status(reason),
                        headers: seq![],
                        body: None,
                    }
                },
                Resolution::Accept { relative, trailing_slash } => {
                    let candidates = file_candidates(
                        o,
                        relative,
                        trailing_slash,
                        header_text(bytes_of(head.accept_encoding)),
                        number,
                    );
                    &&& kept matches Some(r)
                    &&& r.relative == relative
                    &&& r.trailing_slash == trailing_slash
                    &&& r.method_head == is_method(bytes_of(head.method), "HEAD"@)
                    &&& r.if_none_match == header_text(bytes_of(head.if_none_match))
                    &&& r.if_modified_since == header_text(bytes_of(head.if_modified_since))
                    &&& r.if_match == header_text(bytes_of(head.if_match))
                    &&& r.if_unmodified_since == header_text(bytes_of(head.if_unmodified_since))
                    &&& r.if_range == header_text(bytes_of(head.if_range))
                    &&& r.range_header == header_text(bytes_of(head.range))
                    &&& stage == (Stage::ResolvingFile { pending: candidates.skip(1) })
                    &&& decision matches Decision::Open { relative, index, ctx, .. }
                    &&& relative == candidates[0].0
                    &&& index is None
                    &&& ctx == candidates[0].1
                },
            }
        }),
{
    reveal_strlit("");
    assert(""@ =~= Seq::<char>::empty());
}

/// The files that may be meant are the variants that were negotiated, by the
/// name of the file with the suffix of the variant, and then the file itself.
/// All have the content type of the file itself. A path with a trailing slash
/// has no variants.
pub proof fn law_variants_stand_for_the_file(
    o: Options,
    relative: Seq<char>,
    trailing_slash: bool,
    accept_encoding: Option<Seq<char>>,
    number: spec_fn(Seq<char>) -> Option<u32>,
    i: int,
)
    requires
        0 <= i < file_candidates(o, relative, trailing_slash, accept_encoding, number).len(),
    ensures
        ({
            let candidates = file_candidates(o, relative, trailing_slash, accept_encoding, number);
            let variants = encoding::negotiated(accept_encoding, o.precompressed, number);
            let count = if trailing_slash {
                0
            } else {
                variants.len()
            };
            let ctx = candidates[i].1;
            &&& candidates.len() == count + 1
            &&& ctx.content_type == mime::content_type(
                relative,
                o.mime_overrides,
                o.default_content_type,
            )
            &&& ctx.add_vary == (count > 0)
            &&& i < count ==> candidates[i].0 == relative + variants[i].0 && ctx.encoding == Some(
                variants[i].1,
            )
            &&& i == count ==> candidates[i].0 == relative && ctx.encoding is None
        }),
{
}

/// A file that cannot be opened is passed over for the next of those that may be
/// meant. The last one decides: its error is the answer.
pub proof fn law_missing_files_are_passed_over(
    o: Options,
    r: Request,
    pending: Seq<(Seq<char>, Ctx)>,
    error: IoError,
)
    ensures
        ({
            let stage = Stage::ResolvingFile { pending };
            let (next, decision) = open_error_step(o, r, stage, error);
            let missed = opened_directory_step(o, r, stage, true);
            &&& pending.len() > 0 ==> {
                &&& next == (Stage::ResolvingFile { pending: pending.skip(1) })
                &&& decision matches Decision::Open { relative, index, ctx, .. }
                &&& relative == pending[0].0
                &&& index is None
                &&& ctx == pending[0].1
                &&& missed == (next, decision)
            }
            &&& pending.len() == 0 ==> {
                &&& next is Done
                &&& decision == Decision::Respond {
                    status: error::error_status(error.kind, error.raw_os_error),
                    headers: seq![],
                    body: None,
                }
            }
        }),
{
}

/// The index files of a directory are tried in the order that they are
/// configured in, each with the content type of its name and without an
/// encoding.
pub proof fn law_index_files_are_tried_in_order(
    o: Options,
    r: Request,
    stage: Stage,
    error: IoError,
    k: int,
)
    requires
        r.trailing_slash || !o.redirect_trailing_slash,
        o.directory != DirectoryMode::Deny,
        0 <= k < o.index_files.len(),
    ensures
        ({
            let names = index_candidates(o);
            let step = if k == 0 {
                directory_step(o, r, stage)
            } else {
                open_error_step(o, r, Stage::ResolvingIndex { names: names.skip(k) }, error)
            };
            &&& names.len() == o.index_files.len()
            &&& step.0 == (Stage::ResolvingIndex { names: names.skip(k + 1) })
            &&& step.1 matches Decision::Open { relative, index, ctx, .. }
            &&& relative == r.relative
            &&& index == Some(o.index_files[k])
            &&& ctx.content_type == mime::content_type(
                o.index_files[k],
                o.mime_overrides,
                o.default_content_type,
            )
            &&& ctx.encoding is None
            &&& !ctx.add_vary
        }),
{
    let names = index_candidates(o);
    assert(names.skip(k).skip(1) =~= names.skip(k + 1));
    assert(names.skip(k)[0] == names[k]);
    assert(names.skip(0) =~= names);
}

/// An open asks for a first chunk exactly if the whole file is to be sent, and
/// follows links exactly if the configuration says so.
pub proof fn law_opens_read_ahead_for_whole_files(
    o: Options,
    r: Request,
    pending: Seq<(Seq<char>, Ctx)>,
)
    requires
        pending.len() > 0,
    ensures
        next_candidate(o, r, pending).1 matches Decision::Open { deny_symlinks, prefetch_len, .. }
            && deny_symlinks == !o.follow_symlinks_within_root && prefetch_len == if r.method_head
            || r.range_header is Some {
            0
        } else {
            o.chunk_size
        },
{
}

/// The URL of a path below the root is that path behind a slash and behind the
/// prefix of the mount, if there is one.
pub proof fn law_urls_lead_through_the_mount(o: Options, relative: Seq<char>, prefix: Seq<char>)
    ensures
        o.strip_prefix is None ==> url_for(o, relative) == "/"@ + relative,
        url_for(Options { strip_prefix: Some(prefix), ..o }, relative) == prefix + "/"@ + relative,
{
    reveal_strlit("/");
    assert("/"@ =~= seq!['/']);
    assert(o.strip_prefix is None ==> url_for(o, relative) =~= "/"@ + relative);
}

/// A response is planned from the request as it was sent, the file as it was
/// found and the server as it is configured. Without support for ranges a
/// `Range` header has no influence, and several ranges are served together only
/// with full support, fifty at most.
pub proof fn law_responses_are_planned_from_the_request(
    o: Options,
    r: Request,
    stat: FileStat,
    ctx: Ctx,
)
    ensures
        ({
            let facts = serve_facts(o, r, stat, ctx);
            let meta = serve_meta(stat);
            let plain = Request { range_header: None, ..r };
            &&& facts.method_head == r.method_head
            &&& facts.if_match == r.if_match
            &&& facts.if_unmodified_since == r.if_unmodified_since
            &&& facts.if_none_match == r.if_none_match
            &&& facts.if_modified_since == r.if_modified_since
            &&& facts.if_range == r.if_range
            &&& facts.content_type == ctx.content_type
            &&& facts.content_encoding == ctx.encoding
            &&& facts.add_vary == ctx.add_vary
            &&& facts.etag_enabled == o.etag
            &&& facts.last_modified_enabled == o.last_modified
            &&& facts.cache_control == o.cache_control
            &&& o.ranges == RangeSupport::Off ==> facts == serve_facts(o, plain, stat, ctx)
            &&& o.ranges != RangeSupport::Off ==> facts.range_header == r.range_header
            &&& facts.allow_multi == (o.ranges == RangeSupport::Multi)
            &&& facts.max_parts == 50
            &&& meta.size == stat.size
            &&& meta.mtime_unix == stat.mtime_unix
            &&& meta.mtime_nanos == stat.mtime_nanos
        }),
{
}

/// The boundary of a multipart response is a fixed word with the size and the
/// modification time of the file behind it, sixteen hexadecimal digits each.
pub proof fn law_boundaries_name_the_file(size: u64, mtime_unix: i64)
    ensures
        boundary_text(size, mtime_unix) == "envoyfilesboundary"@ + text::zero_padded(
            text::numeral(size as nat, 16),
            16,
        ) + text::zero_padded(
            text::numeral(
                (if mtime_unix >= 0 {
                    mtime_unix as int
                } else {
                    mtime_unix + 0x1_0000_0000_0000_0000
                }) as nat,
                16,
            ),
            16,
        ),
{
}

/// A directory that was read is answered with the page that lists it, under the
/// URL that it was asked for by, with a link to the parent below the root. One
/// that could not be read is answered with the error.
pub proof fn law_directories_are_listed(
    o: Options,
    r: Request,
    stage: Stage,
    entries: Vec<DirEntryInfo>,
    error: IoError,
)
    requires
        forall|i: int|
            0 <= i < entries@.len() ==> 0 <= (#[trigger] entries@[i]).mtime_unix < 253_402_300_800,
    ensures
        ({
            let all = Seq::new(
                entries@.len(),
                |i: int|
                    listing::Entry {
                        name: entries@[i].name@,
                        is_dir: entries@[i].is_dir,
                        size: entries@[i].size,
                        mtime_unix: entries@[i].mtime_unix,
                    },
            );
            let (next, decision) = dir_step(o, r, stage, Ok(entries));
            &&& next is Done
            &&& decision == Decision::Respond {
                status: StatusCode::OK,
                headers: seq![(HeaderName::ContentType, "text/html; charset=utf-8"@)],
                body: Some(
                    listing::listing_page(url_for(o, r.relative), r.relative.len() == 0, all),
                ),
            }
        }),
        dir_step(o, r, stage, Err(error)) == (
            Stage::Done,
            Decision::Respond {
                status: error::error_status(error.kind, error.raw_os_error),
                headers: seq![],
                body: None,
            },
        ),
{
    let all = Seq::new(
        entries@.len(),
        |i: int|
            listing::Entry {
                name: entries@[i].name@,
                is_dir: entries@[i].is_dir,
                size: entries@[i].size,
                mtime_unix: entries@[i].mtime_unix,
            },
    );
    assert(listed_all(entries@) =~= all);
    assert(listing::dates_valid(all)) by {
        assert forall|i: int| 0 <= i < all.len() implies validators::has_http_date(
            (#[trigger] all[i]).mtime_unix,
        ) by {
            assert(entries@[i].mtime_unix >= 0);
        }
    }
}

/// A HEAD is answered by a head alone, and so is what has no content: the stream
/// ends with it.
pub proof fn law_responses_without_a_body_end_at_once(
    o: Options,
    r: Request,
    stage: Stage,
    stat: FileStat,
    ctx: Ctx,
    prefetch: Seq<u8>,
    next: Stage,
    decision: Decision,
)
    requires
        served(o, r, stage, stat, ctx, prefetch, next, decision),
        decision is SendHead,
    ensures
        r.method_head ==> next is Done && decision->SendHead_end_stream,
        decision->SendHead_status.number() != 200 && decision->SendHead_status.number() != 206
            ==> next is Done && decision->SendHead_end_stream,
        decision->SendHead_end_stream <==> next is Done,
        !r.method_head && decision->SendHead_status.number() == 206 && o.chunk_size > 0
            ==> next is Streaming,
{
    let facts = serve_facts(o, r, stat, ctx);
    let meta = serve_meta(stat);
    let plan = response_plan::planned(facts, meta);
    let range = response_plan::request_range(
        facts,
        meta,
        response_plan::range_counts(facts, meta),
    );
    if let Some(raw) = facts.range_header {
        range::law_planned_ranges_lie_within(raw, meta.size, facts.allow_multi, facts.max_parts);
    }
    match plan.body {
        response_plan::BodyView::Segments(ranges) => {
            let part = range->Single_0;
            assert(ranges == seq![part]);
            assert(ranges.drop_last() =~= seq![]);
            let head = stream::range_pieces(ranges.drop_last(), o.chunk_size);
            assert(stream::range_pieces(ranges, o.chunk_size) == head + stream::file_pieces(
                part.start as int,
                part.spec_len(),
                o.chunk_size,
            ));
        },
        _ => {},
    }
}

/// What a pump step does to a request: a stream that is held up rests; else the
/// next chunk is sent if it is ready, and reads are started if it is not.
pub open spec fn pumped(before: Stage, max: usize, step: PumpStep, after: Stage) -> bool {
    match before {
        Stage::Streaming(stream) if stream.watermark_depth == 0 => if stream.ready@.contains_key(
            stream.next_send,
        ) {
            &&& step matches PumpStep::Send { bytes, end_stream }
            &&& bytes == stream.ready@[stream.next_send]
            &&& end_stream == (stream.next_send == stream.chunks@.len() - 1)
            &&& end_stream ==> after is Done
            &&& !end_stream ==> after is Streaming && stream::took(
                stream,
                bytes,
                false,
                after->Streaming_0,
            )
        } else {
            &&& step matches PumpStep::Read(tasks)
            &&& after is Streaming
            &&& stream::issued(stream, max, tasks@, after->Streaming_0)
        },
        _ => step is Idle && after == before,
    }
}

/// A response is sent chunk by chunk in order. While it is held up nothing is
/// sent or read. Otherwise the next bytes of the body go out as soon as they are
/// there, reads are under way while they are not, and the end of the stream
/// comes with the last of them.
pub proof fn law_pumping_sends_the_body_in_order(
    stream: Streaming,
    max: usize,
    step: PumpStep,
    after: Stage,
    file: Seq<u8>,
)
    requires
        stream.wf(),
        stream.holds_bytes_of(file),
        0 < max,
        stream.window <= max,
        pumped(Stage::Streaming(stream), max, step, after),
    ensures
        stream.watermark_depth > 0 ==> step is Idle && after == Stage::Streaming(stream),
        stream.watermark_depth == 0 ==> step !is Idle,
        step matches PumpStep::Send { bytes, end_stream } ==> {
            &&& bytes@ == stream::piece_bytes(
                stream::piece_views(stream.chunks@)[stream.next_send as int],
                file,
            )
            &&& end_stream ==> stream.sent(file) + bytes@ == stream::stream_bytes(
                stream::piece_views(stream.chunks@),
                file,
            )
            &&& !end_stream ==> after is Streaming && (after->Streaming_0).sent(file)
                == stream.sent(file) + bytes@ && (after->Streaming_0).holds_bytes_of(file)
            &&& end_stream <==> after is Done
        },
        step matches PumpStep::Read(tasks) ==> {
            &&& after is Streaming
            &&& (after->Streaming_0).sent(file) == stream.sent(file)
            &&& (after->Streaming_0).inflight > 0
            &&& (after->Streaming_0).window <= max
            &&& !stream.ready@.contains_key(stream.next_send)
        },
{
    if let PumpStep::Send { end_stream, .. } = step {
        if end_stream {
            stream::law_last_chunk_completes_the_body(stream, file);
        }
    }
}

/// What a finished read does to a request: it becomes part of the stream, or
/// ends it where it failed.
pub open spec fn read_done(
    before: Stage,
    seq: usize,
    result: Result<Vec<u8>, IoError>,
    after: Stage,
    decision: Decision,
) -> bool {
    match before {
        Stage::Streaming(stream) => match result {
            Ok(bytes) => decision == Decision::Wait && after is Streaming && (if stream.awaits(
                seq,
            ) {
                stream::accepted(stream, seq, bytes, after->Streaming_0)
            } else {
                after->Streaming_0 == stream
            }),
            Err(_) => decision == Decision::Truncate && after is Done,
        },
        _ => decision == Decision::Wait && after == before,
    }
}

/// A read that failed ends the stream at once. One that succeeded brings the
/// bytes of its chunk, once; what was not asked for changes nothing.
pub proof fn law_failed_reads_end_the_stream(
    stream: Streaming,
    seq: usize,
    bytes: Vec<u8>,
    error: IoError,
    after: Stage,
    decision: Decision,
)
    requires
        stream.wf(),
    ensures
        read_done(Stage::Streaming(stream), seq, Err(error), after, decision) ==> decision
            == Decision::Truncate && after == Stage::Done,
        read_done(Stage::Streaming(stream), seq, Ok(bytes), after, decision) ==> {
            &&& decision == Decision::Wait
            &&& after is Streaming
            &&& stream.awaits(seq) ==> (after->Streaming_0).ready@.contains_key(seq)
                && (after->Streaming_0).ready@[seq] == bytes && (after->Streaming_0).inflight + 1
                == stream.inflight
            &&& !stream.awaits(seq) ==> after == Stage::Streaming(stream)
        },
{
}

/// A path that turns out to be a directory is served as one, unless it was tried
/// for a variant of a file.
pub proof fn law_opened_directories_are_served_as_such(
    o: Options,
    r: Request,
    pending: Seq<(Seq<char>, Ctx)>,
)
    ensures
        opened_directory_step(o, r, Stage::ResolvingFile { pending }, false) == directory_step(
            o,
            r,
            Stage::ResolvingFile { pending },
        ),
        r.trailing_slash && o.directory == DirectoryMode::Listing && o.index_files.len() == 0
            ==> opened_directory_step(o, r, Stage::ResolvingFile { pending }, false) == (
            Stage::ResolvingFile { pending },
            Decision::ReadDir {
                relative: r.relative,
                path: io::location(o.root, r.relative, None),
            },
        ),
{
}

/// A complete response ends the stream, a head does where nothing follows it,
/// and so does giving up; nothing else does.
pub proof fn law_the_stream_ends_with_the_response(action: Action)
    ensures
        action.ends() <==> match action@ {
            Decision::Respond { .. } | Decision::Truncate | Decision::Fail => true,
            Decision::SendHead { end_stream, .. } => end_stream,
            Decision::Wait | Decision::Open { .. } | Decision::ReadDir { .. } => false,
        },
{
}

/// What is kept of a request is shown field by field.
pub proof fn law_requests_show_their_fields(data: RequestData)
    ensures
        data@.method_head == data.method_head,
        data@.trailing_slash == data.trailing_slash,
        data@.relative == data.relative@,
        data@.if_match == data.if_match.deep_view(),
        data@.if_unmodified_since == data.if_unmodified_since.deep_view(),
        data@.if_none_match == data.if_none_match.deep_view(),
        data@.if_modified_since == data.if_modified_since.deep_view(),
        data@.if_range == data.if_range.deep_view(),
        data@.range_header == data.range_header.deep_view(),
{
}

} // verus!
