//! What the integration harness works out from texts: response headers,
//! statistics, log lines, and the names of the files that it runs.

use crate::{json, text};
use serde_json::Value;
use std::path::PathBuf;
use vstd::prelude::*;
use vstd::slice::slice_subrange;

verus! {

/// The name under which Envoy loads the module.
pub const MODULE_NAME: &'static str = "envoy_files";

/// A response as received.
pub struct Response {
    pub status: u16,
    pub headers: Vec<(String, String)>,
    pub body: Vec<u8>,
}

/// The value of the first field with the given name, ignoring ASCII case.
pub open spec fn field_value(headers: Seq<(Seq<char>, Seq<char>)>, name: Seq<char>) -> Option<
    Seq<char>,
>
    decreases headers.len(),
{
    if headers.len() == 0 {
        None
    } else if text::lower_all(headers[0].0) == text::lower_all(name) {
        Some(headers[0].1)
    } else {
        field_value(headers.skip(1), name)
    }
}

impl Response {
    /// The value of a header field.
    pub fn header(&self, name: &str) -> (res: Option<&str>)
        ensures
            crate::validators::text_of(res) == field_value(self.headers.deep_view(), name@),
    {
        let wanted = text::chars(name);
        let ghost views = self.headers.deep_view();
        let mut i: usize = 0;
        assert(views.skip(0) =~= views);
        while i < self.headers.len()
            invariant
                0 <= i <= self.headers.len(),
                views == self.headers.deep_view(),
                wanted@ == name@,
                field_value(views, name@) == field_value(views.skip(i as int), name@),
            decreases self.headers.len() - i,
        {
            let key = text::chars(self.headers[i].0.as_str());
            proof {
                assert(views.skip(i as int)[0] == (
                    self.headers@[i as int].0@,
                    self.headers@[i as int].1@,
                ));
                assert(views.skip(i as int).skip(1) =~= views.skip(i + 1));
            }
            if text::same_ignoring_case(key.as_slice(), wanted.as_slice()) {
                return Some(self.headers[i].1.as_str());
            }
            i += 1;
        }
        None
    }
}

/// A document root for tests.
pub struct Www {
    pub root: PathBuf,
    pub big_sha256: String,
}

impl Www {
    /// The path of the document root.
    pub fn path(&self) -> (res: &PathBuf)
        ensures
            *res == self.root,
    {
        &self.root
    }
}

/// The index of the first occurrence of `needle` in `s`, if there is one.
pub open spec fn index_of(s: Seq<char>, needle: Seq<char>) -> Option<int>
    decreases s.len(),
{
    if text::has_prefix(s, needle) {
        Some(0)
    } else if s.len() == 0 {
        None
    } else {
        match index_of(s.skip(1), needle) {
            Some(i) => Some(i + 1),
            None => None,
        }
    }
}

/// Finds the first occurrence of `needle` in `cs`.
pub fn find_text(cs: &[char], needle: &[char]) -> (res: Option<usize>)
    ensures
        match res {
            Some(i) => index_of(cs@, needle@) == Some(i as int) && i + needle@.len() <= cs@.len(),
            None => index_of(cs@, needle@) is None,
        },
{
    let mut i: usize = 0;
    assert(cs@.skip(0) =~= cs@);
    while i <= cs.len()
        invariant
            0 <= i <= cs@.len() + 1,
            i <= cs@.len() ==> (match index_of(cs@.skip(i as int), needle@) {
                Some(k) => index_of(cs@, needle@) == Some(k + i),
                None => index_of(cs@, needle@) is None,
            }),
            i > cs@.len() ==> index_of(cs@, needle@) is None,
        decreases cs@.len() + 1 - i,
    {
        let rest = slice_subrange(cs, i, cs.len());
        assert(rest@ =~= cs@.skip(i as int));
        if text::starts_with(rest, needle) {
            return Some(i);
        }
        if i == cs.len() {
            return None;
        }
        assert(cs@.skip(i as int).skip(1) =~= cs@.skip(i + 1));
        i += 1;
    }
    None
}

/// A number as `str::parse` reads it: digits, with at most one plus sign in
/// front.
pub open spec fn parsed_number(s: Seq<char>) -> Option<nat> {
    let digits = if s.len() > 0 && s[0] == '+' {
        s.skip(1)
    } else {
        s
    };
    if text::all_digits(digits) {
        Some(text::decimal_value(digits))
    } else {
        None
    }
}

/// Reads a number that fits in 64 bits.
pub fn parse_number(cs: &[char]) -> (res: Option<u64>)
    ensures
        match res {
            Some(n) => parsed_number(cs@) == Some(n as nat),
            None => parsed_number(cs@) is None || parsed_number(cs@)->0 > u64::MAX,
        },
{
    let digits = if cs.len() > 0 && cs[0] == '+' {
        slice_subrange(cs, 1, cs.len())
    } else {
        cs
    };
    assert(cs@.len() > 0 && cs@[0] == '+' ==> digits@ =~= cs@.skip(1));
    if text::only_digits(digits) {
        text::parse_decimal(digits)
    } else {
        None
    }
}

/// A line without the carriage return at its end.
pub open spec fn without_carriage_return(line: Seq<char>) -> Seq<char> {
    if line.len() > 0 && line.last() == '\r' {
        line.drop_last()
    } else {
        line
    }
}

/// The statistic on a line of the form `name: value`, if the value is a number
/// that fits in 64 bits.
pub open spec fn stat_on_line(line: Seq<char>) -> Option<(Seq<char>, u64)> {
    let line = without_carriage_return(line);
    match index_of(line, ": "@) {
        None => None,
        Some(i) => match parsed_number(text::trimmed(line.skip(i + 2))) {
            Some(n) if n <= u64::MAX => Some((line.take(i), n as u64)),
            _ => None,
        },
    }
}

/// The statistics on some lines.
pub open spec fn stats_on_lines(lines: Seq<Seq<char>>) -> Seq<(Seq<char>, u64)>
    decreases lines.len(),
{
    if lines.len() == 0 {
        seq![]
    } else {
        let before = stats_on_lines(lines.drop_last());
        match stat_on_line(lines.last()) {
            Some(stat) => before.push(stat),
            None => before,
        }
    }
}

/// Statistics with the names as sequences.
pub open spec fn stat_views(stats: Seq<(String, u64)>) -> Seq<(Seq<char>, u64)> {
    stats.map_values(|s: (String, u64)| (s.0@, s.1))
}

fn read_stat(line: &[char]) -> (res: Option<(String, u64)>)
    ensures
        match res {
            Some((name, value)) => stat_on_line(line@) == Some((name@, value)),
            None => stat_on_line(line@) is None,
        },
{
    let line = if line.len() > 0 && line[line.len() - 1] == '\r' {
        let cut = slice_subrange(line, 0, line.len() - 1);
        assert(cut@ =~= line@.drop_last());
        cut
    } else {
        line
    };
    let separator = text::chars(": ");
    proof {
        reveal_strlit(": ");
    }
    match find_text(line, separator.as_slice()) {
        None => None,
        Some(i) => {
            let name = slice_subrange(line, 0, i);
            let value = slice_subrange(line, i + 2, line.len());
            assert(name@ =~= line@.take(i as int));
            assert(value@ =~= line@.skip(i + 2));
            match parse_number(text::trim(value)) {
                Some(n) => Some((text::string_of(name), n)),
                None => None,
            }
        },
    }
}

/// Reads the statistics that the admin endpoint prints, one on each line. Lines
/// without a number are left out.
pub fn parse_stats(body: &str) -> (res: Vec<(String, u64)>)
    ensures
        stat_views(res@) == stats_on_lines(text::pieces(body@, '\n')),
{
    let cs = text::chars(body);
    let lines = text::split(cs.as_slice(), '\n');
    let ghost all = text::pieces(body@, '\n');
    let mut stats: Vec<(String, u64)> = Vec::new();
    let mut i: usize = 0;
    assert(all.take(0) =~= seq![]);
    assert(stat_views(stats@) =~= seq![]);
    while i < lines.len()
        invariant
            0 <= i <= lines.len(),
            lines@.len() == all.len(),
            forall|j: int| 0 <= j < all.len() ==> (#[trigger] lines@[j])@ == all[j],
            stat_views(stats@) == stats_on_lines(all.take(i as int)),
        decreases lines.len() - i,
    {
        let ghost before = stat_views(stats@);
        proof {
            assert(all.take(i + 1).drop_last() =~= all.take(i as int));
            assert(all.take(i + 1).last() == all[i as int]);
        }
        if let Some((name, value)) = read_stat(lines[i]) {
            stats.push((name, value));
            assert(stat_views(stats@) =~= before.push((name@, value)));
        }
        i += 1;
    }
    assert(all.take(i as int) =~= all);
    stats
}

/// The value of the first statistic with the given name, or 0.
pub open spec fn stat_named(stats: Seq<(Seq<char>, u64)>, name: Seq<char>) -> u64
    decreases stats.len(),
{
    if stats.len() == 0 {
        0
    } else if stats[0].0 == name {
        stats[0].1
    } else {
        stat_named(stats.skip(1), name)
    }
}

/// Value of an exactly-named counter/gauge (0 if absent).
pub fn admin_stat(stats: &[(String, u64)], name: &str) -> (res: u64)
    ensures
        res == stat_named(stat_views(stats@), name@),
{
    let ghost views = stat_views(stats@);
    let mut i: usize = 0;
    assert(views.skip(0) =~= views);
    while i < stats.len()
        invariant
            0 <= i <= stats.len(),
            views == stat_views(stats@),
            stat_named(views, name@) == stat_named(views.skip(i as int), name@),
        decreases stats.len() - i,
    {
        proof {
            assert(views.skip(i as int)[0] == (stats@[i as int].0@, stats@[i as int].1));
            assert(views.skip(i as int).skip(1) =~= views.skip(i + 1));
        }
        if crate::document::same_text(stats[i].0.as_str(), name) {
            return stats[i].1;
        }
        i += 1;
    }
    0
}

/// Max value across all counters/gauges, or 0 when there are none.
pub fn admin_stat_max(stats: &[(String, u64)]) -> (res: u64)
    ensures
        forall|i: int| 0 <= i < stats@.len() ==> (#[trigger] stats@[i]).1 <= res,
        res == 0 || exists|i: int| 0 <= i < stats@.len() && (#[trigger] stats@[i]).1 == res,
{
    let mut max: u64 = 0;
    let mut i: usize = 0;
    while i < stats.len()
        invariant
            0 <= i <= stats.len(),
            forall|j: int| 0 <= j < i ==> (#[trigger] stats@[j]).1 <= max,
            max == 0 || exists|j: int| 0 <= j < i && (#[trigger] stats@[j]).1 == max,
        decreases stats.len() - i,
    {
        if stats[i].1 > max {
            max = stats[i].1;
        }
        assert(stats@[i as int].1 <= max);
        i += 1;
    }
    max
}

/// The first run of characters that are not white space, if there is one.
pub open spec fn first_word(s: Seq<char>) -> Option<Seq<char>> {
    let start = text::trimmed_start(s);
    if start.len() == 0 {
        None
    } else {
        Some(start.take(word_len(start)))
    }
}

/// How many characters `s` has before the first white space.
pub open spec fn word_len(s: Seq<char>) -> int
    decreases s.len(),
{
    if s.len() == 0 || text::is_white(s[0]) {
        0
    } else {
        1 + word_len(s.skip(1))
    }
}

/// The I/O backend that the module named in a log: the word after the first
/// `with io backend `, if one comes before the next.
pub open spec fn logged_backend(log: Seq<char>) -> Option<Seq<char>> {
    let marker = "with io backend "@;
    match index_of(log, marker) {
        None => None,
        Some(i) => {
            let rest = log.skip(i + marker.len());
            match index_of(rest, marker) {
                Some(end) => first_word(rest.take(end)),
                None => first_word(rest),
            }
        },
    }
}

fn read_first_word(cs: &[char]) -> (res: Option<String>)
    ensures
        res.deep_view() == first_word(cs@),
{
    let mut lo: usize = 0;
    while lo < cs.len() && text::is_whitespace(cs[lo])
        invariant
            0 <= lo <= cs.len(),
            forall|i: int| 0 <= i < lo ==> text::is_white(#[trigger] cs@[i]),
        decreases cs.len() - lo,
    {
        lo += 1;
    }
    proof {
        text::lemma_trimmed_start(cs@, lo as int);
    }
    if lo == cs.len() {
        assert(cs@.skip(lo as int).len() == 0);
        return None;
    }
    let word = slice_subrange(cs, lo, cs.len());
    assert(word@ =~= text::trimmed_start(cs@));
    let mut n: usize = 0;
    assert(word@.skip(0) =~= word@);
    while n < word.len() && !text::is_whitespace(word[n])
        invariant
            0 <= n <= word.len(),
            word_len(word@) == n + word_len(word@.skip(n as int)),
        decreases word.len() - n,
    {
        assert(word@.skip(n as int).skip(1) =~= word@.skip(n + 1));
        n += 1;
    }
    let found = slice_subrange(word, 0, n);
    assert(found@ =~= word@.take(word_len(word@)));
    Some(text::string_of(found))
}

/// Finds the I/O backend that the module named in a log.
pub fn io_backend(log: &str) -> (res: Option<String>)
    ensures
        res.deep_view() == logged_backend(log@),
{
    let cs = text::chars(log);
    let marker = text::chars("with io backend ");
    let start = match find_text(cs.as_slice(), marker.as_slice()) {
        Some(start) => start,
        None => return None,
    };
    let total: usize = cs.len();
    let rest = slice_subrange(cs.as_slice(), start + marker.len(), total);
    assert(rest@ =~= log@.skip(start + marker@.len()));
    match find_text(rest, marker.as_slice()) {
        Some(end) => {
            let between = slice_subrange(rest, 0, end);
            assert(between@ =~= rest@.take(end as int));
            read_first_word(between)
        },
        None => read_first_word(rest),
    }
}

/// The substring of the wheel filename identifying a platform, by operating
/// system and architecture.
pub open spec fn platform_tag_text(os: Seq<char>, arch: Seq<char>) -> Option<Seq<char>> {
    if os == "macos"@ && arch == "aarch64"@ {
        Some("macosx"@)
    } else if os == "linux"@ && arch == "aarch64"@ {
        Some("manylinux_2_31_aarch64"@)
    } else if os == "linux"@ && arch == "x86_64"@ {
        Some("manylinux_2_31_x86_64"@)
    } else if os == "windows"@ && arch == "x86_64"@ {
        Some("win_amd64"@)
    } else {
        None
    }
}

/// The substring of the wheel filename identifying a platform, by operating
/// system and architecture. `None` for a platform without a wheel.
pub fn platform_tag(os: &str, arch: &str) -> (res: Option<&'static str>)
    ensures
        crate::validators::text_of(res) == platform_tag_text(os@, arch@),
{
    let arm = crate::document::same_text(arch, "aarch64");
    let intel = crate::document::same_text(arch, "x86_64");
    if crate::document::same_text(os, "macos") && arm {
        Some("macosx")
    } else if crate::document::same_text(os, "linux") && arm {
        Some("manylinux_2_31_aarch64")
    } else if crate::document::same_text(os, "linux") && intel {
        Some("manylinux_2_31_x86_64")
    } else if crate::document::same_text(os, "windows") && intel {
        Some("win_amd64")
    } else {
        None
    }
}

/// Whether a file is a wheel for a platform.
pub open spec fn is_wheel_for(filename: Seq<char>, tag: Seq<char>) -> bool {
    &&& filename.len() >= 4
    &&& filename.skip(filename.len() - 4) == ".whl"@
    &&& index_of(filename, tag) is Some
}

/// The address of the first wheel for a platform. The outer `None` means that
/// there is no wheel, the inner one that it has no address.
pub open spec fn wheel_for(
    files: Seq<(Option<Seq<char>>, Option<Seq<char>>)>,
    tag: Seq<char>,
) -> Option<Option<Seq<char>>>
    decreases files.len(),
{
    if files.len() == 0 {
        None
    } else if files[0].0 is Some && is_wheel_for(files[0].0->0, tag) {
        Some(files[0].1)
    } else {
        wheel_for(files.skip(1), tag)
    }
}

/// The files of a package index, as names with addresses, where they have
/// them, or `None` when the text is no package index.
pub open spec fn index_files(text: Seq<char>) -> Option<
    Seq<(Option<Seq<char>>, Option<Seq<char>>)>,
> {
    match json::json_document(text) {
        Some(index) => match json::json_items(json::json_member(index, "urls"@)) {
            Some(files) => Some(files.map_values(|file: Value| index_file(file))),
            None => None,
        },
        None => None,
    }
}

/// The name and the address of a file in a package index.
pub open spec fn index_file(file: Value) -> (Option<Seq<char>>, Option<Seq<char>>) {
    (
        json::json_text(json::json_member(file, "filename"@)),
        json::json_text(json::json_member(file, "url"@)),
    )
}

/// Reads the files of a package index.
fn read_index(text: &str) -> (res: Option<Vec<(Option<String>, Option<String>)>>)
    ensures
        res.deep_view() == index_files(text@),
{
    let index = match json::parse(text) {
        Some(index) => index,
        None => return None,
    };
    let files = match json::items(&json::member(&index, "urls")) {
        Some(files) => files,
        None => return None,
    };
    let ghost expected = files@.map_values(|file: Value| index_file(file));
    let mut out: Vec<(Option<String>, Option<String>)> = Vec::new();
    let mut i: usize = 0;
    while i < files.len()
        invariant
            0 <= i <= files.len(),
            expected == files@.map_values(|file: Value| index_file(file)),
            out@.len() == i,
            forall|j: int| 0 <= j < i ==> (#[trigger] out@[j]).deep_view() == expected[j],
        decreases files.len() - i,
    {
        let file = &files[i];
        let name = json::text(&json::member(file, "filename"));
        let url = json::text(&json::member(file, "url"));
        out.push((name, url));
        i += 1;
    }
    assert(out.deep_view() =~= expected);
    Some(out)
}

fn check_wheel(filename: &str, tag: &str) -> (res: bool)
    ensures
        res == is_wheel_for(filename@, tag@),
{
    let name = text::chars(filename);
    let tag = text::chars(tag);
    if name.len() < 4 {
        return false;
    }
    let ending = slice_subrange(name.as_slice(), name.len() - 4, name.len());
    assert(ending@ =~= filename@.skip(filename@.len() - 4));
    if !text::same(ending, text::chars(".whl").as_slice()) {
        return false;
    }
    match find_text(name.as_slice(), tag.as_slice()) {
        Some(_) => true,
        None => false,
    }
}

/// Picks the first wheel for a platform from the files of a package index.
pub fn pick_wheel(files: &[(Option<String>, Option<String>)], tag: &str) -> (res: Option<
    Option<String>,
>)
    ensures
        res.deep_view() == wheel_for(files.deep_view(), tag@),
{
    let ghost views = files.deep_view();
    let mut i: usize = 0;
    assert(views.skip(0) =~= views);
    while i < files.len()
        invariant
            0 <= i <= files.len(),
            views == files.deep_view(),
            wheel_for(views, tag@) == wheel_for(views.skip(i as int), tag@),
        decreases files.len() - i,
    {
        proof {
            assert(views.skip(i as int)[0] == files@[i as int].deep_view());
            assert(views.skip(i as int).skip(1) =~= views.skip(i + 1));
        }
        let fits = match &files[i].0 {
            Some(filename) => check_wheel(filename.as_str(), tag),
            None => false,
        };
        if fits {
            return Some(
                match &files[i].1 {
                    Some(url) => Some(url.clone()),
                    None => None,
                },
            );
        }
        i += 1;
    }
    None
}

/// The address of the wheel for a platform in a package index. `None` when the
/// text is no index, `Some(None)` when it has no such wheel or the wheel has no
/// address.
pub fn wheel_url(index: &str, tag: &str) -> (res: Option<Option<String>>)
    ensures
        match index_files(index@) {
            None => res is None,
            Some(files) => res is Some && (res->0).deep_view() == match wheel_for(files, tag@) {
                Some(url) => url,
                None => None,
            },
        },
{
    let files = match read_index(index) {
        Some(files) => files,
        None => return None,
    };
    let listed = files.as_slice();
    assert(listed.deep_view() =~= files.deep_view());
    match pick_wheel(listed, tag) {
        Some(url) => Some(url),
        None => Some(None),
    }
}

/// The port number under the first listener of an admin listener report, if it
/// is there.
pub open spec fn listener_port(text: Seq<char>) -> Option<u64> {
    match json::json_document(text) {
        Some(report) => {
            let listener = json::json_item(json::json_member(report, "listener_statuses"@), 0);
            let address = json::json_member(listener, "local_address"@);
            let socket = json::json_member(address, "socket_address"@);
            json::json_number(json::json_member(socket, "port_value"@))
        },
        None => None,
    }
}

/// Reads the port number under the first listener of an admin listener report.
fn read_listener_port(text: &str) -> (res: Option<u64>)
    ensures
        res == listener_port(text@),
{
    let report = match json::parse(text) {
        Some(report) => report,
        None => return None,
    };
    let listener = json::item(&json::member(&report, "listener_statuses"), 0);
    let address = json::member(&listener, "local_address");
    let socket = json::member(&address, "socket_address");
    json::number(&json::member(&socket, "port_value"))
}

/// The port of the first listener in an admin listener report.
pub fn discover_port(report: &str) -> (res: Option<u16>)
    ensures
        res == match listener_port(report@) {
            Some(port) => Some(port_of(port)),
            None => None,
        },
{
    match read_listener_port(report) {
        Some(port) => Some(port_number(port)),
        None => None,
    }
}

/// A number cut down to the sixteen bits of a port.
pub open spec fn port_of(n: u64) -> u16 {
    (n % 0x1_0000) as u16
}

/// A number cut down to the sixteen bits of a port.
pub fn port_number(n: u64) -> (res: u16)
    ensures
        res == port_of(n),
{
    (n % 0x1_0000) as u16
}

/// Where the Envoy binary is cached below a target directory.
pub fn envoy_binary(target_dir: &str, windows: bool) -> (res: String)
    ensures
        res@ == target_dir@ + "/envoy-bin/"@ + if windows {
            "envoy.dll"@
        } else {
            "envoy"@
        },
{
    let mut path = target_dir.to_owned();
    path.append("/envoy-bin/");
    path.append(
        if windows {
            "envoy.dll"
        } else {
            "envoy"
        },
    );
    path
}

/// The Envoy binary inside a wheel.
pub fn wheel_entry(windows: bool) -> (res: &'static str)
    ensures
        res@ == if windows {
            "envoy/_bin/envoy.dll"@
        } else {
            "envoy/_bin/envoy"@
        },
{
    if windows {
        "envoy/_bin/envoy.dll"
    } else {
        "envoy/_bin/envoy"
    }
}

/// The file name of the built module on an operating system.
pub open spec fn module_file_text(os: Seq<char>) -> Seq<char> {
    if os == "windows"@ {
        "envoy_files.dll"@
    } else if os == "macos"@ {
        "libenvoy_files.dylib"@
    } else {
        "libenvoy_files.so"@
    }
}

/// Where the built module is below a target directory. The profile is that of
/// a debug or a release build.
pub fn built_module_path(target_dir: &str, os: &str, debug: bool) -> (res: String)
    ensures
        res@ == target_dir@ + (if debug {
            "/debug/"@
        } else {
            "/release/"@
        }) + module_file_text(os@),
{
    let mut path = target_dir.to_owned();
    path.append(
        if debug {
            "/debug/"
        } else {
            "/release/"
        },
    );
    path.append(
        if crate::document::same_text(os, "windows") {
            "envoy_files.dll"
        } else if crate::document::same_text(os, "macos") {
            "libenvoy_files.dylib"
        } else {
            "libenvoy_files.so"
        },
    );
    path
}

/// The name under which Envoy looks for the module: `lib<name>.so` on POSIX
/// (including macOS) and `<name>.dll` on Windows.
pub fn staged_module(windows: bool) -> (res: &'static str)
    ensures
        res@ == if windows {
            "envoy_files.dll"@
        } else {
            "libenvoy_files.so"@
        },
{
    if windows {
        "envoy_files.dll"
    } else {
        "libenvoy_files.so"
    }
}

/// The status on the first line of a response: the number in its second word,
/// words being separated by single spaces.
pub open spec fn status_on_line(head: Seq<char>) -> Option<nat> {
    let words = text::pieces(head, ' ');
    if words.len() < 2 {
        None
    } else {
        parsed_number(words[1])
    }
}

/// Reads the status from the start of a response, if it is a number of sixteen
/// bits.
pub fn http_status(head: &str) -> (res: Option<u16>)
    ensures
        match res {
            Some(status) => status_on_line(head@) == Some(status as nat),
            None => status_on_line(head@) is None || status_on_line(head@)->0 > u16::MAX,
        },
{
    let cs = text::chars(head);
    let words = text::split(cs.as_slice(), ' ');
    if words.len() < 2 {
        return None;
    }
    match parse_number(words[1]) {
        Some(n) => if n <= 0xffff {
            Some(n as u16)
        } else {
            None
        },
        None => None,
    }
}

/// The contents of a member of a zip archive, or `None` when the bytes are no
/// archive or it has no such member that can be read.
pub uninterp spec fn archive_member(archive: Seq<u8>, name: Seq<char>) -> Option<Seq<u8>>;

/// `zip::ZipArchive::new` and `by_name`, and all bytes of what is found. They
/// are a function of the archive and the name, named by [`archive_member`].
#[verifier::external_body]
fn read_member(archive: &[u8], name: &str) -> (res: Option<Vec<u8>>)
    ensures
        res.deep_view() == archive_member(archive@, name@),
{
    let mut zip = zip::ZipArchive::new(std::io::Cursor::new(archive)).ok()?;
    let mut bytes = Vec::new();
    std::io::Read::read_to_end(&mut zip.by_name(name).ok()?, &mut bytes).ok()?;
    Some(bytes)
}

/// The Envoy binary inside the bytes of a wheel.
pub fn binary_in_wheel(wheel: &[u8], windows: bool) -> (res: Option<Vec<u8>>)
    ensures
        res.deep_view() == archive_member(
            wheel@,
            if windows {
                "envoy/_bin/envoy.dll"@
            } else {
                "envoy/_bin/envoy"@
            },
        ),
{
    read_member(wheel, wheel_entry(windows))
}

/// Where the start of a server stands.
#[derive(Debug, Clone, Copy, PartialEq, Eq, Structural)]
pub enum Startup {
    /// Look again in a moment.
    Waiting,
    /// The server listens on the port.
    Ready(u16),
    /// The server is gone.
    Exited,
    /// It took too long.
    TimedOut,
}

/// The address in the file that a server writes once its admin endpoint is
/// there.
pub open spec fn written_address(contents: Seq<char>) -> Option<Seq<char>> {
    if text::trimmed(contents).len() == 0 {
        None
    } else {
        Some(text::trimmed(contents))
    }
}

/// Reads the address from the file that a server writes.
pub fn admin_address(contents: &str) -> (res: Option<String>)
    ensures
        res.deep_view() == written_address(contents@),
{
    let cs = text::chars(contents);
    let address = text::trim(cs.as_slice());
    if address.len() == 0 {
        None
    } else {
        Some(text::string_of(address))
    }
}

/// Decides how the start of a server goes on, given whether it has exited, what
/// it has written to its address file, the port of its listener where that is
/// known, and whether the time is up.
pub fn startup_step(exited: bool, admin: &str, port: Option<u16>, expired: bool) -> (res: Startup)
    ensures
        res == startup_of(exited, admin@, port, expired),
        res == if expired {
            Startup::TimedOut
        } else if exited {
            Startup::Exited
        } else {
            match (written_address(admin@), port) {
                (Some(_), Some(port)) => Startup::Ready(port),
                _ => Startup::Waiting,
            }
        },
{
    if expired {
        return Startup::TimedOut;
    }
    if exited {
        return Startup::Exited;
    }
    if admin_address(admin).is_none() {
        return Startup::Waiting;
    }
    match port {
        Some(port) => Startup::Ready(port),
        None => Startup::Waiting,
    }
}

/// Whether a request that failed in transport is sent once more, after the
/// given number of attempts.
pub fn may_retry(attempts: u32) -> (res: bool)
    ensures
        res == (attempts < 3),
{
    attempts < 3
}

/// The sum of the counts of statuses that begin with `2`.
pub open spec fn success_total(counts: Seq<(Seq<char>, Option<u64>)>) -> nat
    decreases counts.len(),
{
    if counts.len() == 0 {
        0
    } else {
        let (status, count) = counts.last();
        success_total(counts.drop_last()) + if status.len() > 0 && status[0] == '2' {
            match count {
                Some(n) => n as nat,
                None => 0,
            }
        } else {
            0
        }
    }
}

proof fn lemma_success_total_grows(counts: Seq<(Seq<char>, Option<u64>)>, k: int)
    requires
        0 <= k <= counts.len(),
    ensures
        success_total(counts.take(k)) <= success_total(counts),
    decreases counts.len(),
{
    if k < counts.len() {
        lemma_success_total_grows(counts.drop_last(), k);
        assert(counts.drop_last().take(k) =~= counts.take(k));
    } else {
        assert(counts.take(k) =~= counts);
    }
}

/// Adds up the counts of statuses that begin with `2`, if 64 bits hold the sum.
pub fn count_successes(counts: &[(String, Option<u64>)]) -> (res: Option<u64>)
    ensures
        res is Some <==> success_total(counts.deep_view()) <= u64::MAX,
        res matches Some(total) ==> total == success_total(counts.deep_view()),
{
    let ghost views = counts.deep_view();
    let mut total: u64 = 0;
    let mut i: usize = 0;
    assert(views.take(0) =~= seq![]);
    while i < counts.len()
        invariant
            0 <= i <= counts.len(),
            views == counts.deep_view(),
            total == success_total(views.take(i as int)),
        decreases counts.len() - i,
    {
        proof {
            assert(views.take(i + 1).drop_last() =~= views.take(i as int));
            assert(views.take(i + 1).last() == counts@[i as int].deep_view());
            lemma_success_total_grows(views, i + 1);
        }
        let status = text::chars(counts[i].0.as_str());
        if status.len() > 0 && status[0] == '2' {
            if let Some(n) = counts[i].1 {
                match total.checked_add(n) {
                    Some(sum) => total = sum,
                    None => return None,
                }
            }
        }
        i += 1;
    }
    assert(views.take(i as int) =~= views);
    Some(total)
}

/// The counts of a load report by status, empty where it has none.
pub open spec fn status_counts(report: Value) -> Seq<(Seq<char>, Option<u64>)> {
    match json::json_entries(json::json_member(report, "statusCodeDistribution"@)) {
        Some(entries) => entries.map_values(
            |e: (Seq<char>, Value)| (e.0, json::json_number(e.1)),
        ),
        None => seq![],
    }
}

/// Reads how many responses of a load report were successful. `None` when the
/// text is no JSON, or 64 bits do not hold the number.
pub fn successful_responses(report: &str) -> (res: Option<u64>)
    ensures
        match json::json_document(report@) {
            Some(value) => {
                let total = success_total(status_counts(value));
                &&& res is Some <==> total <= u64::MAX
                &&& res matches Some(n) ==> n == total
            },
            None => res is None,
        },
{
    let value = match json::parse(report) {
        Some(value) => value,
        None => return None,
    };
    let entries = match json::entries(&json::member(&value, "statusCodeDistribution")) {
        Some(entries) => entries,
        None => {
            assert(success_total(status_counts(value)) == 0);
            return Some(0);
        },
    };
    let ghost expected = status_counts(value);
    let mut counts: Vec<(String, Option<u64>)> = Vec::new();
    let mut i: usize = 0;
    while i < entries.len()
        invariant
            0 <= i <= entries.len(),
            expected.len() == entries@.len(),
            forall|j: int|
                0 <= j < entries@.len() ==> #[trigger] expected[j] == (
                    entries@[j].0@,
                    json::json_number(entries@[j].1),
                ),
            counts@.len() == i,
            forall|j: int| 0 <= j < i ==> (#[trigger] counts@[j]).deep_view() == expected[j],
        decreases entries.len() - i,
    {
        let status = entries[i].0.clone();
        let count = json::number(&entries[i].1);
        counts.push((status, count));
        i += 1;
    }
    assert(counts.deep_view() =~= expected);
    let listed = counts.as_slice();
    assert(listed.deep_view() =~= expected);
    count_successes(listed)
}

/// A header field is found by its name in any ASCII case, the first where there
/// are several. `k` is its place, or the number of fields where there is none.
pub proof fn law_the_first_field_with_a_name_counts(
    headers: Seq<(Seq<char>, Seq<char>)>,
    name: Seq<char>,
    k: int,
)
    requires
        0 <= k <= headers.len(),
        k < headers.len() ==> text::lower_all(headers[k].0) == text::lower_all(name),
        forall|i: int|
            0 <= i < k ==> text::lower_all((#[trigger] headers[i]).0) != text::lower_all(name),
    ensures
        field_value(headers, name) == if k < headers.len() {
            Some(headers[k].1)
        } else {
            None
        },
    decreases k,
{
    if k > 0 {
        assert(text::lower_all(headers[0].0) != text::lower_all(name));
        let rest = headers.skip(1);
        assert forall|i: int| 0 <= i < k - 1 implies text::lower_all((#[trigger] rest[i]).0)
            != text::lower_all(name) by {
            assert(rest[i] == headers[i + 1]);
        }
        law_the_first_field_with_a_name_counts(rest, name, k - 1);
    }
}

/// A text is found where it stands first, and it is found if it stands anywhere.
pub proof fn law_texts_are_found_where_they_stand_first(s: Seq<char>, needle: Seq<char>, k: int)
    ensures
        index_of(s, needle) matches Some(i) ==> 0 <= i && i + needle.len() <= s.len()
            && s.subrange(i, i + needle.len()) == needle,
        0 <= k && k + needle.len() <= s.len() && s.subrange(k, k + needle.len()) == needle ==> (
        index_of(s, needle) matches Some(i) && i <= k),
    decreases s.len(),
{
    let n = needle.len() as int;
    if text::has_prefix(s, needle) {
        assert(s.subrange(0, n) =~= s.take(n));
    } else if s.len() > 0 {
        let rest = s.skip(1);
        law_texts_are_found_where_they_stand_first(rest, needle, k - 1);
        if let Some(i) = index_of(rest, needle) {
            assert(s.subrange(i + 1, i + 1 + n) =~= rest.subrange(i, i + n));
        }
        if 0 <= k && k + n <= s.len() && s.subrange(k, k + n) == needle {
            if k == 0 {
                assert(s.take(n) =~= s.subrange(0, n));
            } else {
                assert(rest.subrange(k - 1, k - 1 + n) =~= s.subrange(k, k + n));
            }
        }
    } else if 0 <= k && k + n <= s.len() {
        assert(s.take(0) =~= needle);
    }
}

/// A number is a run of digits, with at most one plus sign in front.
pub proof fn law_numbers_may_have_a_plus_sign(digits: Seq<char>, s: Seq<char>)
    requires
        text::all_digits(digits),
    ensures
        parsed_number(digits) == Some(text::decimal_value(digits)),
        parsed_number(seq!['+'] + digits) == Some(text::decimal_value(digits)),
        parsed_number(s) is Some ==> text::all_digits(s) || (s.len() > 1 && s[0] == '+'
            && text::all_digits(s.skip(1))),
{
    assert(text::is_digit(digits[0]));
    assert((seq!['+'] + digits).skip(1) =~= digits);
}

/// A statistic is a line with a name, a colon, a blank and a number of 64 bits.
/// White space around the number and a carriage return at the end of the line
/// make no difference. A line without a colon and a blank is none.
pub proof fn law_statistics_are_names_with_numbers(
    name: Seq<char>,
    a: Seq<char>,
    digits: Seq<char>,
    line: Seq<char>,
)
    requires
        text::all_digits(digits),
        text::decimal_value(digits) <= u64::MAX,
        forall|i: int| 0 <= i < a.len() ==> text::is_white(#[trigger] a[i]),
        index_of(name + ": "@ + a + digits, ": "@) == Some(name.len() as int),
    ensures
        stat_on_line(name + ": "@ + a + digits) == Some(
            (name, text::decimal_value(digits) as u64),
        ),
        stat_on_line(name + ": "@ + a + digits + seq!['\r']) == Some(
            (name, text::decimal_value(digits) as u64),
        ),
        index_of(without_carriage_return(line), ": "@) is None ==> stat_on_line(line) is None,
{
    reveal_strlit(": ");
    let plain = name + ": "@ + a + digits;
    let n = name.len() as int;
    assert(text::is_digit(digits[0]));
    assert(text::is_digit(digits[digits.len() - 1]));
    assert(plain.last() == digits.last());
    assert(without_carriage_return(plain) == plain);
    let ended = plain + seq!['\r'];
    assert(ended.drop_last() =~= plain);
    assert(ended.last() == '\r');
    assert(without_carriage_return(ended) == plain);
    assert(plain.take(n) =~= name);
    assert(plain.skip(n + 2) =~= a + digits + Seq::<char>::empty());
    text::law_trimming_ignores_surrounding_white_space(a, digits, Seq::<char>::empty());
    law_numbers_may_have_a_plus_sign(digits, digits);
}

/// Every line with a statistic counts, in order.
pub proof fn law_every_line_counts(lines: Seq<Seq<char>>)
    ensures
        stats_on_lines(lines) == lines.filter_map(|line: Seq<char>| stat_on_line(line)),
    decreases lines.len(),
{
    reveal(Seq::filter_map);
    if lines.len() > 0 {
        law_every_line_counts(lines.drop_last());
    }
}

/// The value of a statistic is that of the first with its name, and 0 where
/// there is none. `k` is its place, or the number of statistics.
pub proof fn law_the_first_statistic_with_a_name_counts(
    stats: Seq<(Seq<char>, u64)>,
    name: Seq<char>,
    k: int,
)
    requires
        0 <= k <= stats.len(),
        k < stats.len() ==> stats[k].0 == name,
        forall|i: int| 0 <= i < k ==> (#[trigger] stats[i]).0 != name,
    ensures
        k < stats.len() ==> stat_named(stats, name) == stats[k].1,
        k == stats.len() ==> stat_named(stats, name) == 0,
    decreases k,
{
    if k > 0 {
        assert(stats[0].0 != name);
        let rest = stats.skip(1);
        assert forall|i: int| 0 <= i < k - 1 implies (#[trigger] rest[i]).0 != name by {
            assert(rest[i] == stats[i + 1]);
        }
        law_the_first_statistic_with_a_name_counts(rest, name, k - 1);
    }
}

proof fn lemma_word_len(word: Seq<char>, rest: Seq<char>)
    requires
        forall|i: int| 0 <= i < word.len() ==> !text::is_white(#[trigger] word[i]),
        rest.len() > 0 ==> text::is_white(rest[0]),
    ensures
        word_len(word + rest) == word.len(),
    decreases word.len(),
{
    let s = word + rest;
    if word.len() > 0 {
        assert(s[0] == word[0]);
        let tail = word.skip(1);
        assert forall|i: int| 0 <= i < tail.len() implies !text::is_white(#[trigger] tail[i]) by {
            assert(tail[i] == word[i + 1]);
        }
        lemma_word_len(tail, rest);
        assert(s.skip(1) =~= tail + rest);
    } else {
        assert(s =~= rest);
    }
}

/// The first word of a text ends at white space or with the text, whatever white
/// space stands before it.
pub proof fn law_words_end_at_white_space(a: Seq<char>, word: Seq<char>, rest: Seq<char>)
    requires
        forall|i: int| 0 <= i < a.len() ==> text::is_white(#[trigger] a[i]),
        word.len() > 0,
        forall|i: int| 0 <= i < word.len() ==> !text::is_white(#[trigger] word[i]),
        rest.len() > 0 ==> text::is_white(rest[0]),
    ensures
        first_word(a + word + rest) == Some(word),
        first_word(a) is None,
{
    let s = a + word + rest;
    let n = a.len() as int;
    assert forall|i: int| 0 <= i < n implies text::is_white(#[trigger] s[i]) by {
        assert(s[i] == a[i]);
    }
    assert(s[n] == word[0]);
    text::lemma_trimmed_start(s, n);
    text::lemma_trimmed_start(a, n);
    assert(s.skip(n) =~= word + rest);
    lemma_word_len(word, rest);
    assert((word + rest).take(word.len() as int) =~= word);
}

/// The backend is the first word after the words that announce it, up to where
/// they are repeated.
pub proof fn law_the_announced_backend_is_found(log: Seq<char>, before: int, rest: Seq<char>)
    requires
        index_of(log, "with io backend "@) == Some(before),
        rest == log.skip(before + 16),
    ensures
        index_of(rest, "with io backend "@) is None ==> logged_backend(log) == first_word(rest),
        index_of(rest, "with io backend "@) matches Some(end) ==> logged_backend(log)
            == first_word(rest.take(end)),
{
    reveal_strlit("with io backend ");
}

/// The platforms that have a wheel, with what their file names hold.
pub proof fn law_platforms_have_their_tags(os: Seq<char>, arch: Seq<char>)
    ensures
        platform_tag_text("macos"@, "aarch64"@) == Some("macosx"@),
        platform_tag_text("linux"@, "aarch64"@) == Some("manylinux_2_31_aarch64"@),
        platform_tag_text("linux"@, "x86_64"@) == Some("manylinux_2_31_x86_64"@),
        platform_tag_text("windows"@, "x86_64"@) == Some("win_amd64"@),
        platform_tag_text(os, arch) is Some ==> (os == "macos"@ && arch == "aarch64"@) || (os
            == "linux"@ && (arch == "aarch64"@ || arch == "x86_64"@)) || (os == "windows"@ && arch
            == "x86_64"@),
{
    reveal_strlit("macos");
    reveal_strlit("linux");
    reveal_strlit("windows");
    reveal_strlit("aarch64");
    reveal_strlit("x86_64");
    assert("macos"@[0] == 'm' && "linux"@[0] == 'l' && "windows"@[0] == 'w');
    assert("aarch64"@[0] == 'a' && "x86_64"@[0] == 'x');
}

/// A wheel for a platform is a file whose name holds the tag and ends in `.whl`.
pub proof fn law_wheels_are_known_by_their_names(filename: Seq<char>, tag: Seq<char>, k: int)
    ensures
        is_wheel_for(filename, tag) ==> exists|stem: Seq<char>| #[trigger] (stem + ".whl"@)
            == filename,
        filename.len() >= 4 && filename.skip(filename.len() - 4) == ".whl"@ && 0 <= k && k
            + tag.len() <= filename.len() && filename.subrange(k, k + tag.len()) == tag
            ==> is_wheel_for(filename, tag),
        is_wheel_for(filename, tag) ==> exists|i: int|
            0 <= i && i + tag.len() <= filename.len() && #[trigger] filename.subrange(
                i,
                i + tag.len(),
            ) == tag,
{
    law_texts_are_found_where_they_stand_first(filename, tag, k);
    if is_wheel_for(filename, tag) {
        let stem = filename.take(filename.len() - 4);
        assert(stem + ".whl"@ =~= filename);
        let i = index_of(filename, tag)->0;
        assert(filename.subrange(i, i + tag.len()) == tag);
    }
}

/// The first wheel for the platform is taken, whether or not it has an address.
/// `k` is its place, or the number of files where there is none.
pub proof fn law_the_first_wheel_counts(
    files: Seq<(Option<Seq<char>>, Option<Seq<char>>)>,
    tag: Seq<char>,
    k: int,
)
    requires
        0 <= k <= files.len(),
        k < files.len() ==> files[k].0 is Some && is_wheel_for(files[k].0->0, tag),
        forall|i: int|
            0 <= i < k ==> (#[trigger] files[i]).0 is None || !is_wheel_for(files[i].0->0, tag),
    ensures
        k < files.len() ==> wheel_for(files, tag) == Some(files[k].1),
        k == files.len() ==> wheel_for(files, tag) is None,
    decreases k,
{
    if k > 0 {
        assert(files[0].0 is None || !is_wheel_for(files[0].0->0, tag));
        let rest = files.skip(1);
        assert forall|i: int| 0 <= i < k - 1 implies (#[trigger] rest[i]).0 is None
            || !is_wheel_for(rest[i].0->0, tag) by {
            assert(rest[i] == files[i + 1]);
        }
        law_the_first_wheel_counts(rest, tag, k - 1);
    }
}

/// Where reports have what is read from them.
pub proof fn law_reports_are_read_by_their_keys(text: Seq<char>, value: Value)
    requires
        json::json_document(text) == Some(value),
    ensures
        listener_port(text) == json::json_number(
            json::json_member(
                json::json_member(
                    json::json_member(
                        json::json_item(json::json_member(value, "listener_statuses"@), 0),
                        "local_address"@,
                    ),
                    "socket_address"@,
                ),
                "port_value"@,
            ),
        ),
        json::json_items(json::json_member(value, "urls"@)) is None ==> index_files(text) is None,
        json::json_items(json::json_member(value, "urls"@)) matches Some(files) ==> {
            &&& index_files(text) matches Some(found)
            &&& found.len() == files.len()
            &&& forall|i: int|
                0 <= i < files.len() ==> (#[trigger] found[i]) == (
                    json::json_text(json::json_member(files[i], "filename"@)),
                    json::json_text(json::json_member(files[i], "url"@)),
                )
        },
{
}

/// A port number that sixteen bits hold stays as it is.
pub proof fn law_ports_stay_as_they_are(n: u64)
    requires
        n < 65536,
    ensures
        port_of(n) == n,
{
}

/// The built module has the name that the system gives to a shared library.
pub proof fn law_modules_are_named_by_the_system(os: Seq<char>)
    ensures
        module_file_text("windows"@) == "envoy_files.dll"@,
        module_file_text("macos"@) == "libenvoy_files.dylib"@,
        os != "windows"@ && os != "macos"@ ==> module_file_text(os) == "libenvoy_files.so"@,
{
    reveal_strlit("macos");
    reveal_strlit("windows");
    assert("macos"@[0] == 'm' && "windows"@[0] == 'w');
}

/// The status of a response is the number between the first two blanks of its
/// head, or behind the only one.
pub proof fn law_the_status_is_the_second_word(
    version: Seq<char>,
    digits: Seq<char>,
    rest: Seq<char>,
)
    requires
        !version.contains(' '),
        text::all_digits(digits),
    ensures
        status_on_line(version + seq![' '] + digits) == Some(text::decimal_value(digits)),
        status_on_line(version + seq![' '] + digits + seq![' '] + rest) == Some(
            text::decimal_value(digits),
        ),
        status_on_line(version) is None,
{
    law_numbers_may_have_a_plus_sign(digits, digits);
    assert(!digits.contains(' ')) by {
        assert forall|i: int| 0 <= i < digits.len() implies digits[i] != ' ' by {
            assert(text::is_digit(digits[i]));
        }
    }
    text::lemma_pieces_without_separator(version, ' ');
    text::lemma_pieces_append(version, digits, ' ');
    let short = version + seq![' '] + digits;
    let long = short + seq![' '] + rest;
    assert(seq![version].push(digits)[1] == digits);
    assert forall|i: int| 0 <= i < version.len() implies #[trigger] long[i] != ' ' by {
        assert(version.contains(version[i]));
    }
    text::lemma_position_is(long, ' ', version.len() as int);
    let tail = digits + seq![' '] + rest;
    assert(long.skip(version.len() as int + 1) =~= tail);
    assert forall|i: int| 0 <= i < digits.len() implies #[trigger] tail[i] != ' ' by {
        assert(digits.contains(digits[i]));
    }
    text::lemma_position_is(tail, ' ', digits.len() as int);
    assert(tail.take(digits.len() as int) =~= digits);
    assert(text::pieces(tail, ' ')[0] == digits);
    assert(text::pieces(long, ' ')[1] == digits);
}

/// The address of a server is what it wrote without the white space around it;
/// nothing but white space is none.
pub proof fn law_addresses_are_read_without_white_space(
    a: Seq<char>,
    address: Seq<char>,
    b: Seq<char>,
)
    requires
        forall|i: int| 0 <= i < a.len() ==> text::is_white(#[trigger] a[i]),
        forall|i: int| 0 <= i < b.len() ==> text::is_white(#[trigger] b[i]),
        address.len() > 0,
        !text::is_white(address[0]),
        !text::is_white(address.last()),
    ensures
        written_address(a + address + b) == Some(address),
        written_address(a) is None,
{
    text::law_trimming_ignores_surrounding_white_space(a, address, b);
    text::lemma_trimmed_start(a, a.len() as int);
}

/// The responses with a status that begins with 2 are counted, all of them and
/// no others.
pub proof fn law_successes_are_added_up(
    counts: Seq<(Seq<char>, Option<u64>)>,
    status: Seq<char>,
    count: Option<u64>,
)
    ensures
        success_total(seq![]) == 0,
        success_total(counts.push((status, count))) == success_total(counts) + (if status.len() > 0
            && status[0] == '2' && count is Some {
            count->0 as int
        } else {
            0
        }),
{
    assert(counts.push((status, count)).drop_last() =~= counts);
}

/// The counts of a load report are its entries, each with its number.
pub proof fn law_load_reports_are_counted_by_status(report: Value)
    ensures
        json::json_entries(json::json_member(report, "statusCodeDistribution"@)) is None
            ==> status_counts(report).len() == 0,
        json::json_entries(json::json_member(report, "statusCodeDistribution"@)) matches Some(
            entries,
        ) ==> status_counts(report).len() == entries.len() && forall|i: int|
            0 <= i < entries.len() ==> #[trigger] status_counts(report)[i] == (
                entries[i].0,
                json::json_number(entries[i].1),
            ),
{
}

/// How the start of a server goes on.
pub open spec fn startup_of(
    exited: bool,
    admin: Seq<char>,
    port: Option<u16>,
    expired: bool,
) -> Startup {
    if expired {
        Startup::TimedOut
    } else if exited {
        Startup::Exited
    } else {
        match (written_address(admin), port) {
            (Some(_), Some(port)) => Startup::Ready(port),
            _ => Startup::Waiting,
        }
    }
}

/// A server is ready once it has written an address and its port is known. It is
/// waited for until then, unless it is gone or the time is up.
pub proof fn law_servers_are_waited_for(
    exited: bool,
    admin: Seq<char>,
    port: Option<u16>,
    expired: bool,
)
    ensures
        startup_of(exited, admin, port, true) == Startup::TimedOut,
        startup_of(true, admin, port, false) == Startup::Exited,
        port matches Some(n) ==> (startup_of(exited, admin, port, expired) == Startup::Ready(n)
            <==> !exited && !expired && written_address(admin) is Some),
        startup_of(exited, admin, None, expired) !is Ready,
        startup_of(exited, admin, port, expired) == Startup::Waiting <==> !exited && !expired && (
        written_address(admin) is None || port is None),
{
}

} // verus!
