//! The configuration of the file server.

use crate::document::{find_setting, read_settings, same_text, Setting, Content};
use crate::encoding::{encoding_views, Encoding};
use crate::{document, text};
use std::path::PathBuf;
use vstd::prelude::*;
use vstd::slice::slice_subrange;

verus! {

/// A filesystem path, opaque here.
#[verifier::external_type_specification]
#[verifier::external_body]
pub struct ExPathBuf(std::path::PathBuf);

#[derive(Debug, Clone, Copy, PartialEq, Eq, Structural)]
pub enum DirectoryMode {
    /// Try index files; 404 otherwise.
    Index,
    /// Try index files, then render a generated listing.
    Listing,
    /// Directories are always 403.
    Deny,
}

#[derive(Debug, Clone, Copy, PartialEq, Eq, Structural)]
pub enum RangeSupport {
    Off,
    Single,
    Multi,
}

#[derive(Debug)]
pub struct Config {
    /// Canonicalized at load time; containment checks compare against this.
    pub root: PathBuf,
    pub strip_prefix: Option<String>,
    pub index_files: Vec<String>,
    pub directory: DirectoryMode,
    pub redirect_trailing_slash: bool,
    pub follow_symlinks_within_root: bool,
    pub serve_dotfiles: bool,
    pub chunk_size: usize,
    pub max_inflight_reads: usize,
    pub blocking_threads: Option<usize>,
    pub force_blocking: bool,
    pub etag: bool,
    pub last_modified: bool,
    pub ranges: RangeSupport,
    pub precompressed: Vec<Encoding>,
    pub mime_overrides: Vec<(String, String)>,
    pub default_content_type: String,
    pub cache_control: Option<String>,
}

/// What a [`Config`] says.
pub struct Options {
    pub root: PathBuf,
    pub strip_prefix: Option<Seq<char>>,
    pub index_files: Seq<Seq<char>>,
    pub directory: DirectoryMode,
    pub redirect_trailing_slash: bool,
    pub follow_symlinks_within_root: bool,
    pub serve_dotfiles: bool,
    pub chunk_size: int,
    pub max_inflight_reads: int,
    pub blocking_threads: Option<int>,
    pub force_blocking: bool,
    pub etag: bool,
    pub last_modified: bool,
    pub ranges: RangeSupport,
    pub precompressed: Seq<(Seq<char>, Seq<char>)>,
    pub mime_overrides: Seq<(Seq<char>, Seq<char>)>,
    pub default_content_type: Seq<char>,
    pub cache_control: Option<Seq<char>>,
}

impl View for Config {
    type V = Options;

    open spec fn view(&self) -> Options {
        Options {
            root: self.root,
            strip_prefix: self.strip_prefix.deep_view(),
            index_files: self.index_files.deep_view(),
            directory: self.directory,
            redirect_trailing_slash: self.redirect_trailing_slash,
            follow_symlinks_within_root: self.follow_symlinks_within_root,
            serve_dotfiles: self.serve_dotfiles,
            chunk_size: self.chunk_size as int,
            max_inflight_reads: self.max_inflight_reads as int,
            blocking_threads: match self.blocking_threads {
                Some(n) => Some(n as int),
                None => None,
            },
            force_blocking: self.force_blocking,
            etag: self.etag,
            last_modified: self.last_modified,
            ranges: self.ranges,
            precompressed: encoding_views(self.precompressed@),
            mime_overrides: self.mime_overrides.deep_view(),
            default_content_type: self.default_content_type@,
            cache_control: self.cache_control.deep_view(),
        }
    }
}

/// A configuration whose document root has not been looked up yet.
pub struct Draft {
    /// The document root as configured.
    pub root: String,
    pub settings: Vec<(String, Setting)>,
}

/// What looking up the document root came to. The paths are quoted for
/// messages.
pub enum RootStatus {
    Inaccessible { quoted: String, reason: String },
    NotADirectory { quoted: String },
    /// The canonical path of the root.
    Directory(PathBuf),
}

/// `s` without trailing slashes.
pub open spec fn without_trailing_slashes(s: Seq<char>) -> Seq<char>
    decreases s.len(),
{
    if s.len() > 0 && s.last() == '/' {
        without_trailing_slashes(s.drop_last())
    } else {
        s
    }
}

/// The mount prefix, with a leading and without a trailing slash.
pub open spec fn strip_prefix_option(value: Content) -> Result<Option<Seq<char>>, Seq<char>> {
    match value {
        Content::Missing => Ok(None),
        Content::Text(prefix) => {
            let trimmed = without_trailing_slashes(prefix);
            if trimmed.len() == 0 {
                Err("strip_prefix must be a non-empty path prefix"@)
            } else if trimmed[0] == '/' {
                Ok(Some(trimmed))
            } else {
                Ok(Some(seq!['/'] + trimmed))
            }
        },
        _ => Err("strip_prefix must be a string"@),
    }
}

/// Whether every item is a string.
pub open spec fn all_text(items: Seq<Option<Seq<char>>>) -> bool {
    forall|i: int| 0 <= i < items.len() ==> (#[trigger] items[i]) is Some
}

/// The index file names.
pub open spec fn index_files_option(value: Content) -> Result<Seq<Seq<char>>, Seq<char>> {
    match value {
        Content::Missing => Ok(seq!["index.html"@]),
        Content::List(items) => if all_text(items) {
            Ok(items.map_values(|item: Option<Seq<char>>| item->0))
        } else {
            Err("index_files entries must be strings"@)
        },
        _ => Err("index_files must be a list"@),
    }
}

/// How directories are served.
pub open spec fn directory_option(value: Content) -> Result<DirectoryMode, Seq<char>> {
    match value {
        Content::Text(mode) => if mode == "index"@ {
            Ok(DirectoryMode::Index)
        } else if mode == "listing"@ {
            Ok(DirectoryMode::Listing)
        } else if mode == "deny"@ {
            Ok(DirectoryMode::Deny)
        } else {
            Err("unknown directory mode: "@ + mode)
        },
        _ => Ok(DirectoryMode::Index),
    }
}

/// Which range requests are honored.
pub open spec fn ranges_option(value: Content) -> Result<RangeSupport, Seq<char>> {
    match value {
        Content::Text(mode) => if mode == "none"@ {
            Ok(RangeSupport::Off)
        } else if mode == "single"@ {
            Ok(RangeSupport::Single)
        } else if mode == "multi"@ {
            Ok(RangeSupport::Multi)
        } else {
            Err("unknown ranges mode: "@ + mode)
        },
        _ => Ok(RangeSupport::Multi),
    }
}

/// The encoding with a given name.
pub open spec fn encoding_named(name: Option<Seq<char>>) -> Option<(Seq<char>, Seq<char>)> {
    match name {
        Some(name) => if name == "br"@ {
            Some((".br"@, "br"@))
        } else if name == "gzip"@ {
            Some((".gz"@, "gzip"@))
        } else if name == "zstd"@ {
            Some((".zst"@, "zstd"@))
        } else {
            None
        },
        None => None,
    }
}

/// Whether every item names an encoding.
pub open spec fn all_encodings(items: Seq<Option<Seq<char>>>) -> bool {
    forall|i: int| 0 <= i < items.len() ==> encoding_named(#[trigger] items[i]) is Some
}

/// The pre-compressed encodings, in server preference order.
pub open spec fn precompressed_option(value: Content) -> Result<
    Seq<(Seq<char>, Seq<char>)>,
    Seq<char>,
> {
    match value {
        Content::Missing => Ok(seq![(".br"@, "br"@), (".gz"@, "gzip"@)]),
        Content::List(items) => if all_encodings(items) {
            Ok(items.map_values(|item: Option<Seq<char>>| encoding_named(item)->0))
        } else {
            Err("precompressed entries must be br, gzip, or zstd"@)
        },
        _ => Err("precompressed must be a list"@),
    }
}

/// Whether every key and every value is a string.
pub open spec fn all_text_pairs(pairs: Seq<(Option<Seq<char>>, Option<Seq<char>>)>) -> bool {
    forall|i: int|
        0 <= i < pairs.len() ==> (#[trigger] pairs[i]).0 is Some && pairs[i].1 is Some
}

/// The content types by extension.
pub open spec fn mime_overrides_option(value: Content) -> Result<
    Seq<(Seq<char>, Seq<char>)>,
    Seq<char>,
> {
    match value {
        Content::Missing => Ok(seq![]),
        Content::Table(pairs) => if all_text_pairs(pairs) {
            Ok(
                pairs.map_values(
                    |pair: (Option<Seq<char>>, Option<Seq<char>>)| (pair.0->0, pair.1->0),
                ),
            )
        } else {
            Err("mime_overrides must map strings to strings"@)
        },
        _ => Err("mime_overrides must be a map"@),
    }
}

/// An integer between two bounds, or a default.
pub open spec fn integer_option(
    value: Content,
    key: Seq<char>,
    default: int,
    min: nat,
    max: nat,
) -> Result<int, Seq<char>> {
    match value {
        Content::Missing => Ok(default),
        Content::Integer(n) if min <= n <= max => Ok(n as int),
        _ => Err(key + " must be an integer in "@ + text::decimal(min) + "..="@ + text::decimal(max)),
    }
}

/// The size of the pool of blocking threads, where it is set.
pub open spec fn blocking_threads_option(value: Content) -> Result<Option<int>, Seq<char>> {
    match value {
        Content::Missing => Ok(None),
        Content::Integer(n) if 1 <= n <= 256 => Ok(Some(n as int)),
        _ => Err("blocking_threads must be an integer in 1..=256"@),
    }
}

/// A boolean, or a default.
pub open spec fn bool_option(value: Content, key: Seq<char>, default: bool) -> Result<
    bool,
    Seq<char>,
> {
    match value {
        Content::Missing => Ok(default),
        Content::Boolean(b) => Ok(b),
        _ => Err(key + " must be a boolean"@),
    }
}

/// A text, where the value is one.
pub open spec fn text_option(value: Content) -> Option<Seq<char>> {
    match value {
        Content::Text(text) => Some(text),
        _ => None,
    }
}

/// The message about the first setting with a wrong value, if there is one.
pub open spec fn settings_error(settings: Seq<(Seq<char>, Content)>) -> Option<Seq<char>> {
    let get = |key: Seq<char>| document::value_of(settings, key);
    if let Err(m) = strip_prefix_option(get("strip_prefix"@)) {
        Some(m)
    } else if let Err(m) = index_files_option(get("index_files"@)) {
        Some(m)
    } else if let Err(m) = directory_option(get("directory"@)) {
        Some(m)
    } else if let Err(m) = ranges_option(get("ranges"@)) {
        Some(m)
    } else if let Err(m) = precompressed_option(get("precompressed"@)) {
        Some(m)
    } else if let Err(m) = mime_overrides_option(get("mime_overrides"@)) {
        Some(m)
    } else if let Err(m) = chunk_size_option(settings) {
        Some(m)
    } else if let Err(m) = max_inflight_reads_option(settings) {
        Some(m)
    } else if let Err(m) = blocking_threads_option(get("blocking_threads"@)) {
        Some(m)
    } else if let Err(m) = flag(settings, "redirect_trailing_slash"@, true) {
        Some(m)
    } else if let Err(m) = flag(settings, "follow_symlinks_within_root"@, true) {
        Some(m)
    } else if let Err(m) = flag(settings, "serve_dotfiles"@, false) {
        Some(m)
    } else if let Err(m) = flag(settings, "force_blocking"@, false) {
        Some(m)
    } else if let Err(m) = flag(settings, "etag"@, true) {
        Some(m)
    } else if let Err(m) = flag(settings, "last_modified"@, true) {
        Some(m)
    } else {
        None
    }
}

/// A boolean setting.
pub open spec fn flag(settings: Seq<(Seq<char>, Content)>, key: Seq<char>, default: bool) -> Result<
    bool,
    Seq<char>,
> {
    bool_option(document::value_of(settings, key), key, default)
}

/// The size of a streamed read.
pub open spec fn chunk_size_option(settings: Seq<(Seq<char>, Content)>) -> Result<int, Seq<char>> {
    integer_option(
        document::value_of(settings, "chunk_size"@),
        "chunk_size"@,
        65536,
        4096,
        4194304,
    )
}

/// How many reads may be issued ahead of what has been sent.
pub open spec fn max_inflight_reads_option(settings: Seq<(Seq<char>, Content)>) -> Result<
    int,
    Seq<char>,
> {
    integer_option(
        document::value_of(settings, "max_inflight_reads"@),
        "max_inflight_reads"@,
        2,
        1,
        8,
    )
}

/// The configuration that settings without errors stand for.
pub open spec fn options_of(settings: Seq<(Seq<char>, Content)>, root: PathBuf) -> Options {
    let get = |key: Seq<char>| document::value_of(settings, key);
    Options {
        root,
        strip_prefix: strip_prefix_option(get("strip_prefix"@))->Ok_0,
        index_files: index_files_option(get("index_files"@))->Ok_0,
        directory: directory_option(get("directory"@))->Ok_0,
        redirect_trailing_slash: flag(settings, "redirect_trailing_slash"@, true)->Ok_0,
        follow_symlinks_within_root: flag(
            settings,
            "follow_symlinks_within_root"@,
            true,
        )->Ok_0,
        serve_dotfiles: flag(settings, "serve_dotfiles"@, false)->Ok_0,
        chunk_size: chunk_size_option(settings)->Ok_0,
        max_inflight_reads: max_inflight_reads_option(settings)->Ok_0,
        blocking_threads: blocking_threads_option(get("blocking_threads"@))->Ok_0,
        force_blocking: flag(settings, "force_blocking"@, false)->Ok_0,
        etag: flag(settings, "etag"@, true)->Ok_0,
        last_modified: flag(settings, "last_modified"@, true)->Ok_0,
        ranges: ranges_option(get("ranges"@))->Ok_0,
        precompressed: precompressed_option(get("precompressed"@))->Ok_0,
        mime_overrides: mime_overrides_option(get("mime_overrides"@))->Ok_0,
        default_content_type: match text_option(get("default_content_type"@)) {
            Some(text) => text,
            None => "application/octet-stream"@,
        },
        cache_control: text_option(get("cache_control"@)),
    }
}

/// The configuration that settings stand for once the root is looked up, or
/// the message about what is wrong.
pub open spec fn configured(settings: Seq<(Seq<char>, Content)>, root: RootStatus) -> Result<
    Options,
    Seq<char>,
> {
    match root {
        RootStatus::Inaccessible { quoted, reason } => Err(
            "root "@ + quoted@ + " is not accessible: "@ + reason@,
        ),
        RootStatus::NotADirectory { quoted } => Err("root "@ + quoted@ + " is not a directory"@),
        RootStatus::Directory(path) => match settings_error(settings) {
            Some(message) => Err(message),
            None => Ok(options_of(settings, path)),
        },
    }
}

fn strip_prefix_setting(setting: Option<&Setting>) -> (res: Result<Option<String>, String>)
    requires
        setting matches Some(s) ==> s@ !is Missing,
    ensures
        matches_option(res, strip_prefix_option(shown(setting))),
{
    match setting {
        None => Ok(None),
        Some(Setting::Text(prefix)) => {
            let cs = text::chars(prefix.as_str());
            let mut n: usize = cs.len();
            assert(cs@.take(n as int) =~= cs@);
            while n > 0 && cs[n - 1] == '/'
                invariant
                    0 <= n <= cs.len(),
                    without_trailing_slashes(cs@) == without_trailing_slashes(cs@.take(n as int)),
                decreases n,
            {
                assert(cs@.take(n as int).drop_last() =~= cs@.take(n - 1));
                n -= 1;
            }
            let trimmed = slice_subrange(cs.as_slice(), 0, n);
            assert(trimmed@ =~= cs@.take(n as int));
            assert(without_trailing_slashes(cs@) == trimmed@);
            if trimmed.len() == 0 {
                return Err("strip_prefix must be a non-empty path prefix".to_owned());
            }
            if trimmed[0] == '/' {
                return Ok(Some(text::string_of(trimmed)));
            }
            let mut out = String::new();
            out.push('/');
            out.append(text::string_of(trimmed).as_str());
            assert(out@ =~= seq!['/'] + trimmed@);
            Ok(Some(out))
        },
        Some(_) => Err("strip_prefix must be a string".to_owned()),
    }
}

/// The value of a setting that may be absent.
pub open spec fn shown(setting: Option<&Setting>) -> Content {
    match setting {
        Some(setting) => setting@,
        None => Content::Missing,
    }
}

/// Whether a result is what is expected of it.
pub open spec fn matches_option<T: DeepView>(
    res: Result<T, String>,
    expected: Result<T::V, Seq<char>>,
) -> bool {
    match res {
        Ok(value) => expected == Ok::<T::V, Seq<char>>(value.deep_view()),
        Err(message) => expected == Err::<T::V, Seq<char>>(message@),
    }
}

/// The items, if every one is a string.
fn text_items(items: &Vec<Option<String>>) -> (res: Option<Vec<String>>)
    ensures
        res is Some <==> all_text(items.deep_view()),
        res matches Some(names) ==> names.deep_view() == items.deep_view().map_values(
            |item: Option<Seq<char>>| item->0,
        ),
{
    let ghost views = items.deep_view();
    let mut out: Vec<String> = Vec::new();
    let mut i: usize = 0;
    while i < items.len()
        invariant
            0 <= i <= items.len(),
            views == items.deep_view(),
            out@.len() == i,
            forall|j: int| 0 <= j < i ==> views[j] == Some((#[trigger] out@[j])@),
        decreases items.len() - i,
    {
        assert(views[i as int] == items@[i as int].deep_view());
        match &items[i] {
            Some(name) => out.push(name.clone()),
            None => {
                assert(views[i as int] is None);
                return None;
            },
        }
        i += 1;
    }
    proof {
        assert forall|j: int| 0 <= j < views.len() implies (#[trigger] views[j]) is Some by {
            assert(views[j] == Some(out@[j]@));
        }
        assert(out.deep_view() =~= views.map_values(|item: Option<Seq<char>>| item->0));
    }
    Some(out)
}

fn index_files_setting(setting: Option<&Setting>) -> (res: Result<Vec<String>, String>)
    requires
        setting matches Some(s) ==> s@ !is Missing,
    ensures
        matches_option(res, index_files_option(shown(setting))),
{
    match setting {
        None => {
            let mut out: Vec<String> = Vec::new();
            out.push("index.html".to_owned());
            assert(out.deep_view() =~= seq!["index.html"@]);
            Ok(out)
        },
        Some(Setting::List(items)) => match text_items(items) {
            Some(names) => Ok(names),
            None => Err("index_files entries must be strings".to_owned()),
        },
        Some(_) => Err("index_files must be a list".to_owned()),
    }
}

fn directory_setting(setting: Option<&Setting>) -> (res: Result<DirectoryMode, String>)
    ensures
        match res {
            Ok(mode) => directory_option(shown(setting)) == Ok::<DirectoryMode, Seq<char>>(mode),
            Err(message) => directory_option(shown(setting)) == Err::<DirectoryMode, Seq<char>>(
                message@,
            ),
        },
{
    match setting {
        Some(Setting::Text(mode)) => {
            if same_text(mode.as_str(), "index") {
                Ok(DirectoryMode::Index)
            } else if same_text(mode.as_str(), "listing") {
                Ok(DirectoryMode::Listing)
            } else if same_text(mode.as_str(), "deny") {
                Ok(DirectoryMode::Deny)
            } else {
                let mut message = "unknown directory mode: ".to_owned();
                message.append(mode.as_str());
                Err(message)
            }
        },
        _ => Ok(DirectoryMode::Index),
    }
}

fn ranges_setting(setting: Option<&Setting>) -> (res: Result<RangeSupport, String>)
    ensures
        match res {
            Ok(mode) => ranges_option(shown(setting)) == Ok::<RangeSupport, Seq<char>>(mode),
            Err(message) => ranges_option(shown(setting)) == Err::<RangeSupport, Seq<char>>(
                message@,
            ),
        },
{
    match setting {
        Some(Setting::Text(mode)) => {
            if same_text(mode.as_str(), "none") {
                Ok(RangeSupport::Off)
            } else if same_text(mode.as_str(), "single") {
                Ok(RangeSupport::Single)
            } else if same_text(mode.as_str(), "multi") {
                Ok(RangeSupport::Multi)
            } else {
                let mut message = "unknown ranges mode: ".to_owned();
                message.append(mode.as_str());
                Err(message)
            }
        },
        _ => Ok(RangeSupport::Multi),
    }
}

fn encoding_setting(item: &Option<String>) -> (res: Option<Encoding>)
    ensures
        res is Some <==> encoding_named(item.deep_view()) is Some,
        res matches Some(found) ==> encoding_named(item.deep_view()) == Some(
            (found.file_suffix@, found.content_encoding@),
        ),
{
    match item {
        Some(name) => {
            if same_text(name.as_str(), "br") {
                Some(Encoding::brotli())
            } else if same_text(name.as_str(), "gzip") {
                Some(Encoding::gzip())
            } else if same_text(name.as_str(), "zstd") {
                Some(Encoding::zstd())
            } else {
                None
            }
        },
        None => None,
    }
}

/// The encodings that the items name, if every one does.
fn encoding_items(items: &Vec<Option<String>>) -> (res: Option<Vec<Encoding>>)
    ensures
        res is Some <==> all_encodings(items.deep_view()),
        res matches Some(found) ==> encoding_views(found@) == items.deep_view().map_values(
            |item: Option<Seq<char>>| encoding_named(item)->0,
        ),
{
    let ghost views = items.deep_view();
    let mut out: Vec<Encoding> = Vec::new();
    let mut i: usize = 0;
    while i < items.len()
        invariant
            0 <= i <= items.len(),
            views == items.deep_view(),
            out@.len() == i,
            forall|j: int|
                #![trigger out@[j]]
                0 <= j < i ==> encoding_named(views[j]) == Some(
                    (out@[j].file_suffix@, out@[j].content_encoding@),
                ),
        decreases items.len() - i,
    {
        assert(views[i as int] == items@[i as int].deep_view());
        match encoding_setting(&items[i]) {
            Some(encoding) => out.push(encoding),
            None => {
                assert(encoding_named(views[i as int]) is None);
                return None;
            },
        }
        i += 1;
    }
    proof {
        assert forall|j: int| 0 <= j < views.len() implies encoding_named(
            #[trigger] views[j],
        ) is Some by {
            assert(out@[j].file_suffix@ == out@[j].file_suffix@);
        }
        assert(encoding_views(out@) =~= views.map_values(
            |item: Option<Seq<char>>| encoding_named(item)->0,
        ));
    }
    Some(out)
}

fn precompressed_setting(setting: Option<&Setting>) -> (res: Result<Vec<Encoding>, String>)
    requires
        setting matches Some(s) ==> s@ !is Missing,
    ensures
        match res {
            Ok(found) => precompressed_option(shown(setting)) == Ok::<
                Seq<(Seq<char>, Seq<char>)>,
                Seq<char>,
            >(encoding_views(found@)),
            Err(message) => precompressed_option(shown(setting)) == Err::<
                Seq<(Seq<char>, Seq<char>)>,
                Seq<char>,
            >(message@),
        },
{
    match setting {
        None => {
            let mut out: Vec<Encoding> = Vec::new();
            out.push(Encoding::brotli());
            out.push(Encoding::gzip());
            assert(encoding_views(out@) =~= seq![(".br"@, "br"@), (".gz"@, "gzip"@)]);
            Ok(out)
        },
        Some(Setting::List(items)) => match encoding_items(items) {
            Some(encodings) => Ok(encodings),
            None => Err("precompressed entries must be br, gzip, or zstd".to_owned()),
        },
        Some(_) => Err("precompressed must be a list".to_owned()),
    }
}

/// The pairs, if every key and every value is a string.
fn text_pairs(pairs: &Vec<(Option<String>, Option<String>)>) -> (res: Option<Vec<(String, String)>>)
    ensures
        res is Some <==> all_text_pairs(pairs.deep_view()),
        res matches Some(found) ==> found.deep_view() == pairs.deep_view().map_values(
            |pair: (Option<Seq<char>>, Option<Seq<char>>)| (pair.0->0, pair.1->0),
        ),
{
    let ghost views = pairs.deep_view();
    let mut out: Vec<(String, String)> = Vec::new();
    let mut i: usize = 0;
    while i < pairs.len()
        invariant
            0 <= i <= pairs.len(),
            views == pairs.deep_view(),
            out@.len() == i,
            forall|j: int|
                #![trigger out@[j]]
                0 <= j < i ==> views[j] == (Some(out@[j].0@), Some(out@[j].1@)),
        decreases pairs.len() - i,
    {
        assert(views[i as int] == pairs@[i as int].deep_view());
        match (&pairs[i].0, &pairs[i].1) {
            (Some(key), Some(value)) => out.push((key.clone(), value.clone())),
            _ => {
                assert(views[i as int].0 is None || views[i as int].1 is None);
                return None;
            },
        }
        i += 1;
    }
    proof {
        assert forall|j: int| 0 <= j < views.len() implies (#[trigger] views[j]).0 is Some
            && views[j].1 is Some by {
            assert(views[j] == (Some(out@[j].0@), Some(out@[j].1@)));
        }
        assert(out.deep_view() =~= views.map_values(
            |pair: (Option<Seq<char>>, Option<Seq<char>>)| (pair.0->0, pair.1->0),
        ));
    }
    Some(out)
}

fn mime_overrides_setting(setting: Option<&Setting>) -> (res: Result<
    Vec<(String, String)>,
    String,
>)
    requires
        setting matches Some(s) ==> s@ !is Missing,
    ensures
        matches_option(res, mime_overrides_option(shown(setting))),
{
    match setting {
        None => {
            let out: Vec<(String, String)> = Vec::new();
            assert(out.deep_view() =~= seq![]);
            Ok(out)
        },
        Some(Setting::Table(pairs)) => match text_pairs(pairs) {
            Some(overrides) => Ok(overrides),
            None => Err("mime_overrides must map strings to strings".to_owned()),
        },
        Some(_) => Err("mime_overrides must be a map".to_owned()),
    }
}

fn bool_or(settings: &[(String, Setting)], key: &str, default: bool) -> (res: Result<bool, String>)
    ensures
        match res {
            Ok(value) => flag(document::setting_views(settings@), key@, default) == Ok::<
                bool,
                Seq<char>,
            >(value),
            Err(message) => flag(document::setting_views(settings@), key@, default) == Err::<
                bool,
                Seq<char>,
            >(message@),
        },
{
    match find_setting(settings, key) {
        None => Ok(default),
        Some(Setting::Boolean(value)) => Ok(*value),
        Some(_) => {
            let mut message = key.to_owned();
            message.append(" must be a boolean");
            Err(message)
        },
    }
}

fn int_in_range(
    settings: &[(String, Setting)],
    key: &str,
    default: usize,
    min: u32,
    max: u32,
) -> (res: Result<usize, String>)
    ensures
        ({
            let expected = integer_option(
                document::value_of(document::setting_views(settings@), key@),
                key@,
                default as int,
                min as nat,
                max as nat,
            );
            match res {
                Ok(n) => expected == Ok::<int, Seq<char>>(n as int),
                Err(message) => expected == Err::<int, Seq<char>>(message@),
            }
        }),
{
    match find_setting(settings, key) {
        None => return Ok(default),
        Some(Setting::Integer(n)) => {
            let n: i64 = *n;
            if min as i64 <= n && n <= max as i64 {
                return Ok(n as usize);
            }
        },
        Some(_) => {},
    }
    let mut message = key.to_owned();
    message.append(" must be an integer in ");
    message.append(text::format_decimal(min as u64).as_str());
    message.append("..=");
    message.append(text::format_decimal(max as u64).as_str());
    Err(message)
}

fn blocking_threads_setting(setting: Option<&Setting>) -> (res: Result<Option<usize>, String>)
    requires
        setting matches Some(s) ==> s@ !is Missing,
    ensures
        match res {
            Ok(None) => blocking_threads_option(shown(setting)) == Ok::<Option<int>, Seq<char>>(
                None,
            ),
            Ok(Some(n)) => blocking_threads_option(shown(setting)) == Ok::<Option<int>, Seq<char>>(
                Some(n as int),
            ),
            Err(message) => blocking_threads_option(shown(setting)) == Err::<
                Option<int>,
                Seq<char>,
            >(message@),
        },
{
    match setting {
        None => return Ok(None),
        Some(Setting::Integer(n)) => {
            let n: i64 = *n;
            if 1 <= n && n <= 256 {
                return Ok(Some(n as usize));
            }
        },
        Some(_) => {},
    }
    Err("blocking_threads must be an integer in 1..=256".to_owned())
}

fn text_setting(setting: Option<&Setting>) -> (res: Option<String>)
    ensures
        res.deep_view() == text_option(shown(setting)),
{
    match setting {
        Some(Setting::Text(text)) => Some(text.clone()),
        _ => None,
    }
}

/// Reads a configuration up to the look-up of the document root: the text is a
/// YAML map (JSON is one, too) with nothing but known settings, and names a
/// root.
pub fn parse(raw: &[u8]) -> (res: Result<Draft, String>)
    ensures
        match document::document_settings(raw@) {
            Err(message) => res is Err && (res->Err_0)@ == message,
            Ok(settings) => match text_option(document::value_of(settings, "root"@)) {
                Some(root) => res is Ok && (res->Ok_0).root@ == root && document::setting_views(
                    (res->Ok_0).settings@,
                ) == settings,
                None => res is Err && (res->Err_0)@ == "missing required config key: root"@,
            },
        },
{
    let settings = match read_settings(raw) {
        Ok(settings) => settings,
        Err(message) => return Err(message),
    };
    match text_setting(find_setting(settings.as_slice(), "root")) {
        Some(root) => Ok(Draft { root, settings }),
        None => Err("missing required config key: root".to_owned()),
    }
}

impl Draft {
    /// Completes the configuration, given what looking up its root came to.
    pub fn finish(&self, root: RootStatus) -> (res: Result<Config, String>)
        ensures
            match res {
                Ok(config) => configured(document::setting_views(self.settings@), root) == Ok::<
                    Options,
                    Seq<char>,
                >(config@),
                Err(message) => configured(document::setting_views(self.settings@), root) == Err::<
                    Options,
                    Seq<char>,
                >(message@),
            },
    {
        let path = match root {
            RootStatus::Inaccessible { quoted, reason } => {
                let mut message = "root ".to_owned();
                message.append(quoted.as_str());
                message.append(" is not accessible: ");
                message.append(reason.as_str());
                return Err(message);
            },
            RootStatus::NotADirectory { quoted } => {
                let mut message = "root ".to_owned();
                message.append(quoted.as_str());
                message.append(" is not a directory");
                return Err(message);
            },
            RootStatus::Directory(path) => path,
        };
        complete(self.settings.as_slice(), path)
    }
}

fn complete(settings: &[(String, Setting)], root: PathBuf) -> (res: Result<Config, String>)
    ensures
        match res {
            Ok(config) => settings_error(document::setting_views(settings@)) is None && config@
                == options_of(document::setting_views(settings@), root),
            Err(message) => settings_error(document::setting_views(settings@)) == Some(message@),
        },
{
    let strip_prefix = strip_prefix_setting(find_setting(settings, "strip_prefix"))?;
    let index_files = index_files_setting(find_setting(settings, "index_files"))?;
    let directory = directory_setting(find_setting(settings, "directory"))?;
    let ranges = ranges_setting(find_setting(settings, "ranges"))?;
    let precompressed = precompressed_setting(find_setting(settings, "precompressed"))?;
    let mime_overrides = mime_overrides_setting(find_setting(settings, "mime_overrides"))?;
    let chunk_size: usize = int_in_range(settings, "chunk_size", 65536, 4096, 4194304)?;
    let max_inflight_reads: usize = int_in_range(settings, "max_inflight_reads", 2, 1, 8)?;
    let blocking_threads = blocking_threads_setting(find_setting(settings, "blocking_threads"))?;
    let redirect_trailing_slash = bool_or(settings, "redirect_trailing_slash", true)?;
    let follow_symlinks_within_root = bool_or(settings, "follow_symlinks_within_root", true)?;
    let serve_dotfiles = bool_or(settings, "serve_dotfiles", false)?;
    let force_blocking = bool_or(settings, "force_blocking", false)?;
    let etag = bool_or(settings, "etag", true)?;
    let last_modified = bool_or(settings, "last_modified", true)?;
    let default_content_type = match text_setting(
        find_setting(settings, "default_content_type"),
    ) {
        Some(text) => text,
        None => "application/octet-stream".to_owned(),
    };
    let cache_control = text_setting(find_setting(settings, "cache_control"));
    Ok(
        Config {
            root,
            strip_prefix,
            index_files,
            directory,
            redirect_trailing_slash,
            follow_symlinks_within_root,
            serve_dotfiles,
            chunk_size,
            max_inflight_reads,
            blocking_threads,
            force_blocking,
            etag,
            last_modified,
            ranges,
            precompressed,
            mime_overrides,
            default_content_type,
            cache_control,
        },
    )
}

proof fn lemma_no_trailing_slash(s: Seq<char>)
    ensures
        ({
            let t = without_trailing_slashes(s);
            t.len() > 0 ==> t.last() != '/'
        }),
    decreases s.len(),
{
    if s.len() > 0 && s.last() == '/' {
        lemma_no_trailing_slash(s.drop_last());
    }
}

/// Whether a configuration keeps the documented bounds: chunks of 4 KiB to
/// 4 MiB, one to eight reads ahead, one to 256 blocking threads, and a mount
/// prefix that begins with a slash and does not end with one.
pub open spec fn options_in_bounds(options: Options) -> bool {
    &&& 4096 <= options.chunk_size <= 4194304
    &&& 1 <= options.max_inflight_reads <= 8
    &&& options.blocking_threads matches Some(n) ==> 1 <= n <= 256
    &&& options.strip_prefix matches Some(prefix) ==> prefix.len() > 1 && prefix[0] == '/'
        && prefix.last() != '/'
}

/// Every configuration that is accepted keeps the documented bounds.
pub proof fn law_accepted_configurations_are_in_bounds(
    settings: Seq<(Seq<char>, Content)>,
    root: RootStatus,
)
    ensures
        configured(settings, root) matches Ok(options) ==> options_in_bounds(options),
{
    if let Content::Text(prefix) = document::value_of(settings, "strip_prefix"@) {
        lemma_no_trailing_slash(prefix);
    }
}

/// A root that cannot be used is reported before any other setting is looked
/// at.
pub proof fn law_unusable_root_is_reported_first(
    settings: Seq<(Seq<char>, Content)>,
    other_settings: Seq<(Seq<char>, Content)>,
    root: RootStatus,
)
    requires
        root !is Directory,
    ensures
        configured(settings, root) is Err,
        configured(settings, root) == configured(other_settings, root),
{
}

proof fn lemma_slashes_are_cut(core: Seq<char>, slashes: Seq<char>)
    requires
        core.len() > 0 ==> core.last() != '/',
        forall|i: int| 0 <= i < slashes.len() ==> #[trigger] slashes[i] == '/',
    ensures
        without_trailing_slashes(core + slashes) == core,
    decreases slashes.len(),
{
    let s = core + slashes;
    if slashes.len() > 0 {
        assert(slashes[slashes.len() - 1] == '/');
        let fewer = slashes.drop_last();
        assert forall|i: int| 0 <= i < fewer.len() implies #[trigger] fewer[i] == '/' by {
            assert(fewer[i] == slashes[i]);
        }
        lemma_slashes_are_cut(core, fewer);
        assert(s.drop_last() =~= core + fewer);
    } else {
        assert(s =~= core);
    }
}

/// A mount prefix loses its trailing slashes and gets a leading one where it has
/// none. Nothing but slashes is no prefix.
pub proof fn law_mount_prefixes_are_normalized(core: Seq<char>, slashes: Seq<char>)
    requires
        core.len() > 0 ==> core.last() != '/',
        forall|i: int| 0 <= i < slashes.len() ==> #[trigger] slashes[i] == '/',
    ensures
        core.len() == 0 ==> strip_prefix_option(Content::Text(core + slashes)) is Err,
        core.len() > 0 && core[0] == '/' ==> strip_prefix_option(Content::Text(core + slashes))
            == Ok::<Option<Seq<char>>, Seq<char>>(Some(core)),
        core.len() > 0 && core[0] != '/' ==> strip_prefix_option(Content::Text(core + slashes))
            == Ok::<Option<Seq<char>>, Seq<char>>(Some("/"@ + core)),
        strip_prefix_option(Content::Missing) == Ok::<Option<Seq<char>>, Seq<char>>(None),
{
    lemma_slashes_are_cut(core, slashes);
    reveal_strlit("/");
    assert("/"@ =~= seq!['/']);
}

/// A configuration without settings has the documented defaults.
pub proof fn law_missing_settings_have_their_defaults(
    settings: Seq<(Seq<char>, Content)>,
    root: PathBuf,
)
    requires
        forall|key: Seq<char>|
            key != "root"@ ==> #[trigger] document::value_of(settings, key) is Missing,
    ensures
        configured(settings, RootStatus::Directory(root)) == Ok::<Options, Seq<char>>(
            Options {
                root,
                strip_prefix: None,
                index_files: seq!["index.html"@],
                directory: DirectoryMode::Index,
                redirect_trailing_slash: true,
                follow_symlinks_within_root: true,
                serve_dotfiles: false,
                chunk_size: 65536,
                max_inflight_reads: 2,
                blocking_threads: None,
                force_blocking: false,
                etag: true,
                last_modified: true,
                ranges: RangeSupport::Multi,
                precompressed: seq![(".br"@, "br"@), (".gz"@, "gzip"@)],
                mime_overrides: seq![],
                default_content_type: "application/octet-stream"@,
                cache_control: None,
            },
        ),
{
    reveal_strlit("root");
    reveal_strlit("strip_prefix");
    reveal_strlit("index_files");
    reveal_strlit("directory");
    reveal_strlit("redirect_trailing_slash");
    reveal_strlit("follow_symlinks_within_root");
    reveal_strlit("serve_dotfiles");
    reveal_strlit("chunk_size");
    reveal_strlit("max_inflight_reads");
    reveal_strlit("blocking_threads");
    reveal_strlit("force_blocking");
    reveal_strlit("etag");
    reveal_strlit("last_modified");
    reveal_strlit("ranges");
    reveal_strlit("precompressed");
    reveal_strlit("mime_overrides");
    reveal_strlit("default_content_type");
    reveal_strlit("cache_control");
    assert("root"@.len() == 4 && "etag"@.len() == 4 && "root"@[0] == 'r' && "etag"@[0] == 'e');
}

/// The settings of an accepted configuration take effect as they are given, all
/// at once and each by its own key. One that is missing has its default.
pub proof fn law_settings_take_effect(settings: Seq<(Seq<char>, Content)>, path: PathBuf)
    requires
        configured(settings, RootStatus::Directory(path)) is Ok,
    ensures
        ({
            let options = configured(settings, RootStatus::Directory(path))->Ok_0;
            let get = |key: Seq<char>| document::value_of(settings, key);
            &&& options.root == path
            &&& match get("index_files"@) {
                Content::List(items) => {
                    &&& options.index_files.len() == items.len()
                    &&& forall|i: int|
                        0 <= i < items.len() ==> Some(#[trigger] options.index_files[i])
                            == items[i]
                },
                _ => options.index_files == seq!["index.html"@],
            }
            &&& match get("precompressed"@) {
                Content::List(items) => {
                    &&& options.precompressed.len() == items.len()
                    &&& forall|i: int|
                        0 <= i < items.len() ==> {
                            let encoding = #[trigger] options.precompressed[i];
                            &&& Some(encoding.1) == items[i]
                            &&& encoding.1 == "br"@ ==> encoding.0 == ".br"@
                            &&& encoding.1 == "gzip"@ ==> encoding.0 == ".gz"@
                            &&& encoding.1 == "zstd"@ ==> encoding.0 == ".zst"@
                        }
                },
                _ => options.precompressed == seq![(".br"@, "br"@), (".gz"@, "gzip"@)],
            }
            &&& match get("mime_overrides"@) {
                Content::Table(pairs) => {
                    &&& options.mime_overrides.len() == pairs.len()
                    &&& forall|i: int|
                        0 <= i < pairs.len() ==> pairs[i] == (
                            Some((#[trigger] options.mime_overrides[i]).0),
                            Some(options.mime_overrides[i].1),
                        )
                },
                _ => options.mime_overrides.len() == 0,
            }
            &&& options.strip_prefix == match get("strip_prefix"@) {
                Content::Text(prefix) => strip_prefix_option(Content::Text(prefix))->Ok_0,
                _ => None,
            }
        }),
{
    reveal_strlit("br");
    reveal_strlit("gzip");
    reveal_strlit("zstd");
    assert("br"@.len() == 2 && "gzip"@.len() == 4 && "zstd"@.len() == 4 && "gzip"@[0] == 'g'
        && "zstd"@[0] == 'z');
    let options = configured(settings, RootStatus::Directory(path))->Ok_0;
    if let Content::List(items) = document::value_of(settings, "index_files"@) {
        assert forall|i: int| 0 <= i < items.len() implies Some(#[trigger] options.index_files[i])
            == items[i] by {
            assert(items[i] is Some);
        }
    }
    if let Content::List(items) = document::value_of(settings, "precompressed"@) {
        assert forall|i: int| 0 <= i < items.len() implies {
            let encoding = #[trigger] options.precompressed[i];
            &&& Some(encoding.1) == items[i]
            &&& encoding.1 == "br"@ ==> encoding.0 == ".br"@
            &&& encoding.1 == "gzip"@ ==> encoding.0 == ".gz"@
            &&& encoding.1 == "zstd"@ ==> encoding.0 == ".zst"@
        } by {
            assert(encoding_named(items[i]) is Some);
        }
    }
    if let Content::Table(pairs) = document::value_of(settings, "mime_overrides"@) {
        assert forall|i: int| 0 <= i < pairs.len() implies pairs[i] == (
            Some((#[trigger] options.mime_overrides[i]).0),
            Some(options.mime_overrides[i].1),
        ) by {
            assert(pairs[i].0 is Some && pairs[i].1 is Some);
        }
    }
}

/// Modes, numbers, switches and texts of an accepted configuration are those
/// given, each by its own key, and have their defaults where they are missing.
pub proof fn law_simple_settings_take_effect(settings: Seq<(Seq<char>, Content)>, path: PathBuf)
    requires
        configured(settings, RootStatus::Directory(path)) is Ok,
    ensures
        ({
            let options = configured(settings, RootStatus::Directory(path))->Ok_0;
            let get = |key: Seq<char>| document::value_of(settings, key);
            &&& options.directory == match get("directory"@) {
                Content::Text(mode) => if mode == "listing"@ {
                    DirectoryMode::Listing
                } else if mode == "deny"@ {
                    DirectoryMode::Deny
                } else {
                    DirectoryMode::Index
                },
                _ => DirectoryMode::Index,
            }
            &&& options.ranges == match get("ranges"@) {
                Content::Text(mode) => if mode == "none"@ {
                    RangeSupport::Off
                } else if mode == "single"@ {
                    RangeSupport::Single
                } else {
                    RangeSupport::Multi
                },
                _ => RangeSupport::Multi,
            }
            &&& options.chunk_size == match get("chunk_size"@) {
                Content::Integer(n) => n as int,
                _ => 65536,
            }
            &&& options.max_inflight_reads == match get("max_inflight_reads"@) {
                Content::Integer(n) => n as int,
                _ => 2,
            }
            &&& options.blocking_threads == match get("blocking_threads"@) {
                Content::Integer(n) => Some(n as int),
                _ => None,
            }
            &&& options.redirect_trailing_slash == (get("redirect_trailing_slash"@)
                != Content::Boolean(false))
            &&& options.follow_symlinks_within_root == (get("follow_symlinks_within_root"@)
                != Content::Boolean(false))
            &&& options.serve_dotfiles == (get("serve_dotfiles"@) == Content::Boolean(true))
            &&& options.force_blocking == (get("force_blocking"@) == Content::Boolean(true))
            &&& options.etag == (get("etag"@) != Content::Boolean(false))
            &&& options.last_modified == (get("last_modified"@) != Content::Boolean(false))
            &&& options.default_content_type == match get("default_content_type"@) {
                Content::Text(text) => text,
                _ => "application/octet-stream"@,
            }
            &&& options.cache_control == match get("cache_control"@) {
                Content::Text(text) => Some(text),
                _ => None,
            }
        }),
{
    reveal_strlit("index");
    reveal_strlit("listing");
    reveal_strlit("deny");
    reveal_strlit("none");
    reveal_strlit("single");
    reveal_strlit("multi");
    assert("index"@.len() == 5 && "listing"@.len() == 7 && "deny"@.len() == 4);
    assert("none"@.len() == 4 && "single"@.len() == 6 && "multi"@.len() == 5);
}

/// A configuration is accepted exactly if every setting is missing or has a
/// value of the documented kind and within the documented bounds.
pub proof fn law_only_documented_values_are_accepted(
    settings: Seq<(Seq<char>, Content)>,
    path: PathBuf,
)
    ensures
        configured(settings, RootStatus::Directory(path)) is Ok <==> {
            let get = |key: Seq<char>| document::value_of(settings, key);
            let is_switch = |v: Content| v is Missing || v is Boolean;
            &&& match get("strip_prefix"@) {
                Content::Missing => true,
                Content::Text(prefix) => exists|i: int|
                    0 <= i < prefix.len() && #[trigger] prefix[i] != '/',
                _ => false,
            }
            &&& match get("index_files"@) {
                Content::Missing => true,
                Content::List(items) => forall|i: int|
                    0 <= i < items.len() ==> (#[trigger] items[i]) is Some,
                _ => false,
            }
            &&& match get("directory"@) {
                Content::Text(mode) => mode == "index"@ || mode == "listing"@ || mode == "deny"@,
                _ => true,
            }
            &&& match get("ranges"@) {
                Content::Text(mode) => mode == "none"@ || mode == "single"@ || mode == "multi"@,
                _ => true,
            }
            &&& match get("precompressed"@) {
                Content::Missing => true,
                Content::List(items) => forall|i: int|
                    0 <= i < items.len() ==> ((#[trigger] items[i]) == Some("br"@) || items[i]
                        == Some("gzip"@) || items[i] == Some("zstd"@)),
                _ => false,
            }
            &&& match get("mime_overrides"@) {
                Content::Missing => true,
                Content::Table(pairs) => forall|i: int|
                    0 <= i < pairs.len() ==> (#[trigger] pairs[i]).0 is Some && pairs[i].1 is Some,
                _ => false,
            }
            &&& match get("chunk_size"@) {
                Content::Missing => true,
                Content::Integer(n) => 4096 <= n <= 4 * 1024 * 1024,
                _ => false,
            }
            &&& match get("max_inflight_reads"@) {
                Content::Missing => true,
                Content::Integer(n) => 1 <= n <= 8,
                _ => false,
            }
            &&& match get("blocking_threads"@) {
                Content::Missing => true,
                Content::Integer(n) => 1 <= n <= 256,
                _ => false,
            }
            &&& is_switch(get("redirect_trailing_slash"@))
            &&& is_switch(get("follow_symlinks_within_root"@))
            &&& is_switch(get("serve_dotfiles"@))
            &&& is_switch(get("force_blocking"@))
            &&& is_switch(get("etag"@))
            &&& is_switch(get("last_modified"@))
        },
{
    if let Content::Text(prefix) = document::value_of(settings, "strip_prefix"@) {
        lemma_prefix_is_more_than_slashes(prefix);
    }
    if let Content::List(items) = document::value_of(settings, "precompressed"@) {
        assert forall|i: int| 0 <= i < items.len() implies (encoding_named(#[trigger] items[i]) is Some
            <==> items[i] == Some("br"@) || items[i] == Some("gzip"@) || items[i] == Some(
            "zstd"@,
        )) by {}
    }
}

proof fn lemma_prefix_is_more_than_slashes(s: Seq<char>)
    ensures
        without_trailing_slashes(s).len() > 0 <==> exists|i: int|
            0 <= i < s.len() && #[trigger] s[i] != '/',
    decreases s.len(),
{
    if s.len() > 0 && s.last() == '/' {
        let t = s.drop_last();
        lemma_prefix_is_more_than_slashes(t);
        if exists|i: int| 0 <= i < s.len() && #[trigger] s[i] != '/' {
            let i = choose|i: int| 0 <= i < s.len() && #[trigger] s[i] != '/';
            assert(t[i] != '/');
        }
        if exists|i: int| 0 <= i < t.len() && #[trigger] t[i] != '/' {
            let i = choose|i: int| 0 <= i < t.len() && #[trigger] t[i] != '/';
            assert(s[i] != '/');
        }
    } else if s.len() > 0 {
        assert(s[s.len() - 1] != '/');
    }
}

/// What is wrong with a configuration is said in words that name the setting.
/// The root comes first, then the settings in their order. Each clause is about
/// a configuration without the settings that are looked at before.
pub proof fn law_messages_name_the_setting(
    settings: Seq<(Seq<char>, Content)>,
    path: PathBuf,
    quoted: String,
    reason: String,
)
    ensures
        ({
            let get = |key: Seq<char>| document::value_of(settings, key);
            let says = |message: Seq<char>|
                configured(settings, RootStatus::Directory(path)) == Err::<Options, Seq<char>>(
                    message,
                );
            let a = get("strip_prefix"@) is Missing;
            let b = a && get("index_files"@) is Missing;
            let c = b && get("directory"@) is Missing;
            let d = c && get("ranges"@) is Missing;
            let e = d && get("precompressed"@) is Missing;
            let f = e && get("mime_overrides"@) is Missing;
            let g = f && get("chunk_size"@) is Missing;
            let h = g && get("max_inflight_reads"@) is Missing;
            let i = h && get("blocking_threads"@) is Missing;
            &&& configured(settings, RootStatus::Inaccessible { quoted, reason }) == Err::<
                Options,
                Seq<char>,
            >("root "@ + quoted@ + " is not accessible: "@ + reason@)
            &&& configured(settings, RootStatus::NotADirectory { quoted }) == Err::<
                Options,
                Seq<char>,
            >("root "@ + quoted@ + " is not a directory"@)
            &&& get("strip_prefix"@) == Content::Text("/"@) ==> says(
                "strip_prefix must be a non-empty path prefix"@,
            )
            &&& get("strip_prefix"@) is Integer ==> says("strip_prefix must be a string"@)
            &&& a && get("index_files"@) is Text ==> says("index_files must be a list"@)
            &&& a && get("index_files"@) == Content::List(seq![None]) ==> says(
                "index_files entries must be strings"@,
            )
            &&& b && get("directory"@) is Text && get("directory"@)->Text_0 != "index"@ && get(
                "directory"@,
            )->Text_0 != "listing"@ && get("directory"@)->Text_0 != "deny"@ ==> says(
                "unknown directory mode: "@ + get("directory"@)->Text_0,
            )
            &&& c && get("ranges"@) is Text && get("ranges"@)->Text_0 != "none"@ && get(
                "ranges"@,
            )->Text_0 != "single"@ && get("ranges"@)->Text_0 != "multi"@ ==> says(
                "unknown ranges mode: "@ + get("ranges"@)->Text_0,
            )
            &&& d && get("precompressed"@) is Text ==> says("precompressed must be a list"@)
            &&& d && get("precompressed"@) == Content::List(seq![None]) ==> says(
                "precompressed entries must be br, gzip, or zstd"@,
            )
            &&& e && get("mime_overrides"@) is Text ==> says("mime_overrides must be a map"@)
            &&& e && get("mime_overrides"@) == Content::Table(seq![(None, None)]) ==> says(
                "mime_overrides must map strings to strings"@,
            )
            &&& f && get("chunk_size"@) is Text ==> says(
                "chunk_size"@ + " must be an integer in "@ + text::decimal(4096) + "..="@
                    + text::decimal(4194304),
            )
            &&& g && get("max_inflight_reads"@) is Text ==> says(
                "max_inflight_reads"@ + " must be an integer in "@ + text::decimal(1) + "..="@
                    + text::decimal(8),
            )
            &&& h && get("blocking_threads"@) is Text ==> says(
                "blocking_threads must be an integer in 1..=256"@,
            )
            &&& i && get("redirect_trailing_slash"@) is Text ==> says(
                "redirect_trailing_slash"@ + " must be a boolean"@,
            )
        }),
{
    reveal_strlit("/");
    let slash = "/"@;
    assert(slash.drop_last() =~= seq![]);
    assert(without_trailing_slashes(slash.drop_last()).len() == 0);
    assert(without_trailing_slashes(slash).len() == 0);
    let nothing: Seq<Option<Seq<char>>> = seq![None];
    assert(nothing[0] is None);
    assert(encoding_named(nothing[0]) is None);
    let pair: Seq<(Option<Seq<char>>, Option<Seq<char>>)> = seq![(None, None)];
    assert(pair[0].0 is None);
}

/// A configuration is shown setting by setting.
pub proof fn law_options_show_the_configuration(config: Config)
    ensures
        config@.root == config.root,
        config@.strip_prefix == config.strip_prefix.deep_view(),
        config@.index_files == config.index_files.deep_view(),
        config@.directory == config.directory,
        config@.redirect_trailing_slash == config.redirect_trailing_slash,
        config@.follow_symlinks_within_root == config.follow_symlinks_within_root,
        config@.serve_dotfiles == config.serve_dotfiles,
        config@.chunk_size == config.chunk_size,
        config@.max_inflight_reads == config.max_inflight_reads,
        config.blocking_threads is None <==> config@.blocking_threads is None,
        config.blocking_threads matches Some(n) ==> config@.blocking_threads == Some(n as int),
        config@.force_blocking == config.force_blocking,
        config@.etag == config.etag,
        config@.last_modified == config.last_modified,
        config@.ranges == config.ranges,
        config@.precompressed.len() == config.precompressed@.len(),
        forall|i: int|
            0 <= i < config.precompressed@.len() ==> #[trigger] config@.precompressed[i] == (
                config.precompressed@[i].file_suffix@,
                config.precompressed@[i].content_encoding@,
            ),
        config@.mime_overrides == config.mime_overrides.deep_view(),
        config@.default_content_type == config.default_content_type@,
        config@.cache_control == config.cache_control.deep_view(),
{
}

} // verus!
