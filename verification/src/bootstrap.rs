//! Envoy bootstrap configurations, as JSON texts, that run the file server
//! module or what it is compared with. Keys are sorted, but for the prefixes of
//! mounts, which keep the order that they are given in.

use crate::text;
use vstd::prelude::*;

verus! {

/// The filter entry of the module, up to its configuration.
pub const MODULE_FILTER_HEAD: &'static str =
    r#"{"name":"envoy_files","typed_config":{"@type":"type.googleapis.com/envoy.extensions.filters.http.dynamic_modules.v3.DynamicModuleFilter","dynamic_module_config":{"name":"envoy_files"},"filter_config":{"@type":"type.googleapis.com/google.protobuf.StringValue","value":"#;

/// The filter entry of the module, between its configuration and whether it is terminal.
pub const MODULE_FILTER_MIDDLE: &'static str = r#"},"filter_name":"envoy_files","terminal_filter":"#;

/// The entry of the filter that routes requests.
pub const ROUTER: &'static str =
    r#"{"name":"envoy.filters.http.router","typed_config":{"@type":"type.googleapis.com/envoy.extensions.filters.http.router.v3.Router"}}"#;

/// A loopback address with a port that the system picks.
pub const ADDRESS: &'static str = r#"{"socket_address":{"address":"127.0.0.1","port_value":0}}"#;

/// The filter chains of a listener, up to the HTTP filters.
pub const CHAINS_HEAD: &'static str =
    r#"[{"filters":[{"name":"envoy.filters.network.http_connection_manager","typed_config":{"@type":"type.googleapis.com/envoy.extensions.filters.network.http_connection_manager.v3.HttpConnectionManager","generate_request_id":false,"http_filters":["#;

/// The filter chains of a listener, between the HTTP filters and the virtual host.
pub const CHAINS_HOSTS: &'static str = r#"],"route_config":{"virtual_hosts":["#;

/// The filter chains of a listener, between the virtual host and the statistics prefix.
pub const CHAINS_PREFIX: &'static str = r#"]},"stat_prefix":"#;

/// A listener, up to its address.
pub const LISTENER_HEAD: &'static str = r#"{"address":"#;

/// A listener, between its address and its filter chains.
pub const LISTENER_CHAINS: &'static str = r#","filter_chains":"#;

/// A listener, after its filter chains.
pub const LISTENER_TAIL: &'static str = r#","name":"main"}"#;

/// A bootstrap configuration, up to the address of the admin endpoint.
pub const BOOTSTRAP_HEAD: &'static str = r#"{"admin":{"address":"#;

/// A bootstrap configuration, between the admin endpoint and the listener.
pub const BOOTSTRAP_LISTENERS: &'static str = r#"},"static_resources":{"listeners":["#;

/// A virtual host without routes.
pub const PLAIN_HOST: &'static str = r#"{"domains":["*"],"name":"local"}"#;

/// What a mount does, up to the filter that it runs.
pub const MOUNT_ACTION_HEAD: &'static str =
    r#"{"action":{"name":"composite-action","typed_config":{"@type":"type.googleapis.com/envoy.extensions.filters.http.composite.v3.ExecuteFilterAction","typed_config":"#;

/// The filter that runs another one by path prefix, up to the prefixes.
pub const COMPOSITE_HEAD: &'static str =
    r#"{"name":"envoy.filters.http.composite","typed_config":{"@type":"type.googleapis.com/envoy.extensions.common.matching.v3.ExtensionWithMatcher","extension_config":{"name":"envoy.filters.http.composite","typed_config":{"@type":"type.googleapis.com/envoy.extensions.filters.http.composite.v3.Composite"}},"xds_matcher":{"matcher_tree":{"input":{"name":"request-path","typed_config":{"@type":"type.googleapis.com/envoy.type.matcher.v3.HttpRequestHeaderMatchInput","header_name":":path"}},"prefix_match_map":{"map":{"#;

/// A virtual host that answers everything with 404.
pub const NOT_FOUND_HOST: &'static str =
    r#"{"domains":["*"],"name":"local","routes":[{"direct_response":{"body":{"inline_string":"not found"},"status":404},"match":{"prefix":"/"}}]}"#;

/// The entry of Envoy's own file server, up to its root.
pub const FILE_SERVER_HEAD: &'static str =
    r#"{"name":"envoy.filters.http.file_server","typed_config":{"@type":"type.googleapis.com/envoy.extensions.filters.http.file_server.v3.FileServerConfig","content_types":{"bin":"application/octet-stream","html":"text/html"},"default_content_type":"application/octet-stream","manager_config":{"thread_pool":{"thread_count":4}},"path_mappings":[{"file_path_prefix":"#;

/// The entry of Envoy's own file server, after its root.
pub const FILE_SERVER_TAIL: &'static str = r#","request_path_prefix":"/"}]}},"#;

/// The entry of the cache filter, with a comma.
pub const CACHE_HEAD: &'static str =
    r#"{"name":"envoy.filters.http.cache","typed_config":{"@type":"type.googleapis.com/envoy.extensions.filters.http.cache_v2.v3.CacheV2Config","typed_config":{"@type":"type.googleapis.com/envoy.extensions.http.cache_v2.simple_http_cache.v3.SimpleHttpCacheV2Config"}}},"#;

/// A virtual host that routes everything to the internal listener.
pub const INTERNAL_HOST: &'static str =
    r#"{"domains":["*"],"name":"local","routes":[{"match":{"prefix":"/"},"route":{"cluster":"files_internal"}}]}"#;

/// The internal listener, up to its filter chains.
pub const INTERNAL_LISTENER_HEAD: &'static str = r#"{"filter_chains":"#;

/// The virtual host of the internal listener.
pub const INNER_HOST: &'static str = r#"{"domains":["*"],"name":"inner"}"#;

/// The internal listener, after its filter chains.
pub const INTERNAL_LISTENER_TAIL: &'static str = r#","internal_listener":{},"name":"files_internal_listener"}"#;

/// The cached configuration, between the admin endpoint and the listeners.
pub const CACHE_RESOURCES: &'static str =
    r#"},"bootstrap_extensions":[{"name":"envoy.bootstrap.internal_listener","typed_config":{"@type":"type.googleapis.com/envoy.extensions.bootstrap.internal_listener.v3.InternalListener"}}],"static_resources":{"clusters":[{"connect_timeout":"1s","load_assignment":{"cluster_name":"files_internal","endpoints":[{"lb_endpoints":[{"endpoint":{"address":{"envoy_internal_address":{"server_listener_name":"files_internal_listener"}}}}]}]},"name":"files_internal"}],"listeners":["#;

/// The configuration of the `file-server` extension, up to its root.
pub const EXTENSION_HEAD: &'static str =
    r#"{"content_types":{"bin":"application/octet-stream","html":"text/html"},"default_content_type":"application/octet-stream","directory_index_files":["index.html"],"path_mappings":[{"file_path_prefix":"#;

/// The configuration of the `file-server` extension, after its root.
pub const EXTENSION_TAIL: &'static str = r#","request_path_prefix":"/"}]}"#;

/// A character in a JSON string.
pub open spec fn json_char(c: char) -> Seq<char> {
    if c == '"' {
        seq!['\\', '"']
    } else if c == '\\' {
        seq!['\\', '\\']
    } else if c == '\u{8}' {
        seq!['\\', 'b']
    } else if c == '\u{9}' {
        seq!['\\', 't']
    } else if c == '\u{a}' {
        seq!['\\', 'n']
    } else if c == '\u{c}' {
        seq!['\\', 'f']
    } else if c == '\u{d}' {
        seq!['\\', 'r']
    } else if '\u{20}' > c {
        seq![
            '\\',
            'u',
            '0',
            '0',
            text::digit_char(c as nat / 16),
            text::digit_char(c as nat % 16),
        ]
    } else {
        seq![c]
    }
}

/// A text inside a JSON string.
pub open spec fn json_chars(s: Seq<char>) -> Seq<char>
    decreases s.len(),
{
    if s.len() == 0 {
        seq![]
    } else {
        json_chars(s.drop_last()) + json_char(s.last())
    }
}

/// A text as a JSON string.
pub open spec fn json_string(s: Seq<char>) -> Seq<char> {
    seq!['"'] + json_chars(s) + seq!['"']
}

/// Quotes a text as a JSON string.
pub fn quote_json(s: &str) -> (res: String)
    ensures
        res@ == json_string(s@),
{
    let cs = text::chars(s);
    let mut out = String::new();
    out.push('"');
    let mut i: usize = 0;
    assert(cs@.take(0) =~= seq![]);
    assert(out@ =~= seq!['"'] + json_chars(cs@.take(0)));
    while i < cs.len()
        invariant
            0 <= i <= cs.len(),
            out@ == seq!['"'] + json_chars(cs@.take(i as int)),
        decreases cs.len() - i,
    {
        let ghost before = out@;
        let c = cs[i];
        push_json_char(&mut out, c);
        proof {
            assert(cs@.take(i + 1).drop_last() =~= cs@.take(i as int));
            assert(cs@.take(i + 1).last() == c);
            assert(out@ =~= seq!['"'] + json_chars(cs@.take(i + 1)));
        }
        i += 1;
    }
    assert(cs@.take(i as int) =~= cs@);
    out.push('"');
    assert(out@ =~= json_string(s@));
    out
}

fn push_json_char(out: &mut String, c: char)
    ensures
        final(out)@ == old(out)@ + json_char(c),
{
    let ghost before = out@;
    if c == '"' || c == '\\' {
        out.push('\\');
        out.push(c);
    } else if '\u{20}' > c {
        out.push('\\');
        if c == '\u{8}' {
            out.push('b');
        } else if c == '\u{9}' {
            out.push('t');
        } else if c == '\u{a}' {
            out.push('n');
        } else if c == '\u{c}' {
            out.push('f');
        } else if c == '\u{d}' {
            out.push('r');
        } else {
            out.push('u');
            out.push('0');
            out.push('0');
            out.push(text::digit(c as u64 / 16));
            out.push(text::digit(c as u64 % 16));
        }
    } else {
        out.push(c);
    }
    assert(out@ =~= before + json_char(c));
}

/// The filter entry that runs the module with a configuration.
pub open spec fn module_filter_text(filter_cfg: Seq<char>, terminal: bool) -> Seq<char> {
    MODULE_FILTER_HEAD@
        + json_string(filter_cfg) + MODULE_FILTER_MIDDLE@ + (
    if terminal {
        "true"@
    } else {
        "false"@
    }) + "}}"@
}

/// Builds a dynamic-module HTTP filter entry.
pub fn dynamic_module_filter(filter_cfg: &str, terminal: bool) -> (res: String)
    ensures
        res@ == module_filter_text(filter_cfg@, terminal),
{
    let mut out =
        MODULE_FILTER_HEAD.to_owned();
    out.append(quote_json(filter_cfg).as_str());
    out.append(MODULE_FILTER_MIDDLE);
    out.append(
        if terminal {
            "true"
        } else {
            "false"
        },
    );
    out.append("}}");
    out
}

/// The filter chains of a listener: one, with a connection manager that has
/// the given HTTP filters, virtual host and statistics prefix.
pub open spec fn chains_text(
    http_filters: Seq<char>,
    virtual_host: Seq<char>,
    stat_prefix: Seq<char>,
) -> Seq<char> {
    CHAINS_HEAD@
        + http_filters + CHAINS_HOSTS@ + virtual_host
        + CHAINS_PREFIX@ + json_string(stat_prefix) + "}}]}]"@
}

fn chains(http_filters: &str, virtual_host: &str, stat_prefix: &str) -> (res: String)
    ensures
        res@ == chains_text(http_filters@, virtual_host@, stat_prefix@),
{
    let mut out =
        CHAINS_HEAD.to_owned();
    out.append(http_filters);
    out.append(CHAINS_HOSTS);
    out.append(virtual_host);
    out.append(CHAINS_PREFIX);
    out.append(quote_json(stat_prefix).as_str());
    out.append("}}]}]");
    out
}

/// The listener that takes connections from outside.
pub open spec fn listener_text(chains: Seq<char>) -> Seq<char> {
    LISTENER_HEAD@ + ADDRESS@ + LISTENER_CHAINS@ + chains + LISTENER_TAIL@
}

fn listener(chains: &str) -> (res: String)
    ensures
        res@ == listener_text(chains@),
{
    let mut out = LISTENER_HEAD.to_owned();
    out.append(ADDRESS);
    out.append(LISTENER_CHAINS);
    out.append(chains);
    out.append(LISTENER_TAIL);
    out
}

/// A bootstrap configuration with an admin endpoint and the given listener.
pub open spec fn bootstrap_text(listener: Seq<char>) -> Seq<char> {
    BOOTSTRAP_HEAD@ + ADDRESS@ + BOOTSTRAP_LISTENERS@
        + listener + "]}}"@
}

fn bootstrap(listener: &str) -> (res: String)
    ensures
        res@ == bootstrap_text(listener@),
{
    let mut out = BOOTSTRAP_HEAD.to_owned();
    out.append(ADDRESS);
    out.append(BOOTSTRAP_LISTENERS);
    out.append(listener);
    out.append("]}}");
    out
}

/// The configuration with the module as the only filter.
pub open spec fn terminal_config_text(filter_cfg: Seq<char>) -> Seq<char> {
    bootstrap_text(
        listener_text(
            chains_text(
                module_filter_text(filter_cfg, true),
                PLAIN_HOST@,
                "ingress_http"@,
            ),
        ),
    )
}

/// Minimal bootstrap: the module as the single, terminal HTTP filter.
pub fn terminal_config(filter_cfg: &str) -> (res: String)
    ensures
        res@ == terminal_config_text(filter_cfg@),
{
    let filter = dynamic_module_filter(filter_cfg, true);
    let chains = chains(filter.as_str(), PLAIN_HOST, "ingress_http");
    bootstrap(listener(chains.as_str()).as_str())
}

/// What a mount does: run the module with its configuration.
pub open spec fn mount_action_text(filter_cfg: Seq<char>) -> Seq<char> {
    MOUNT_ACTION_HEAD@
        + module_filter_text(filter_cfg, true) + "}}}"@
}

/// Whether a mount counts: none after it has the same prefix.
pub open spec fn mount_counts(mounts: Seq<(Seq<char>, Seq<char>)>, i: int) -> bool {
    forall|j: int| i < j < mounts.len() ==> (#[trigger] mounts[j]).0 != mounts[i].0
}

/// The entries of the first `count` mounts that count, with commas between.
pub open spec fn mounts_text(mounts: Seq<(Seq<char>, Seq<char>)>, count: nat) -> Seq<char>
    decreases count,
{
    if count == 0 {
        seq![]
    } else {
        let before = mounts_text(mounts, (count - 1) as nat);
        let (prefix, filter_cfg) = mounts[count - 1];
        if !mount_counts(mounts, count - 1) {
            before
        } else {
            before + (if before.len() == 0 {
                ""@
            } else {
                ","@
            }) + json_string(prefix) + ":"@ + mount_action_text(filter_cfg)
        }
    }
}

/// The configuration with the module mounted at several prefixes.
pub open spec fn mounts_config_text(mounts: Seq<(Seq<char>, Seq<char>)>) -> Seq<char> {
    bootstrap_text(
        listener_text(
            chains_text(
                COMPOSITE_HEAD@
                    + mounts_text(mounts, mounts.len()) + "}}}}}},"@ + ROUTER@,
                NOT_FOUND_HOST@,
                "ingress_http"@,
            ),
        ),
    )
}

/// Bootstrap that mounts the module at multiple path prefixes with Envoy's
/// matching API (`ExtensionWithMatcher` + `composite`) — the pattern for
/// serving static folders alongside other backends. Each `(prefix, cfg)` runs
/// the module (terminal) for requests under `prefix`; unmatched paths fall
/// through to the router and get a 404. Of several mounts with the same prefix
/// the last one counts.
pub fn mounts_config(mounts: &[(String, String)]) -> (res: String)
    ensures
        res@ == mounts_config_text(mounts.deep_view()),
{
    let ghost views = mounts.deep_view();
    let mut entries = String::new();
    let mut i: usize = 0;
    assert(entries@ =~= seq![]);
    while i < mounts.len()
        invariant
            0 <= i <= mounts.len(),
            views == mounts.deep_view(),
            entries@ == mounts_text(views, i as nat),
        decreases mounts.len() - i,
    {
        assert(views[i as int] == (mounts@[i as int].0@, mounts@[i as int].1@));
        if last_with_prefix(mounts, i) {
            let comma = if entries.as_str().is_empty() {
                ""
            } else {
                ","
            };
            entries.append(comma);
            entries.append(quote_json(mounts[i].0.as_str()).as_str());
            entries.append(":");
            entries.append(
                MOUNT_ACTION_HEAD,
            );
            entries.append(dynamic_module_filter(mounts[i].1.as_str(), true).as_str());
            entries.append("}}}");
            assert(entries@ =~= mounts_text(views, (i + 1) as nat));
        }
        i += 1;
    }
    let mut filters =
        COMPOSITE_HEAD.to_owned();
    filters.append(entries.as_str());
    filters.append("}}}}}},");
    filters.append(
        ROUTER,
    );
    let chains = chains(
        filters.as_str(),
        NOT_FOUND_HOST,
        "ingress_http",
    );
    bootstrap(listener(chains.as_str()).as_str())
}

fn last_with_prefix(mounts: &[(String, String)], i: usize) -> (res: bool)
    requires
        i < mounts@.len(),
    ensures
        res == mount_counts(mounts.deep_view(), i as int),
{
    let ghost views = mounts.deep_view();
    let count: usize = mounts.len();
    let mut j: usize = i + 1;
    while j < count
        invariant
            i < j <= count,
            count == mounts@.len(),
            views == mounts.deep_view(),
            forall|k: int| i < k < j ==> (#[trigger] views[k]).0 != views[i as int].0,
        decreases count - j,
    {
        assert(views[i as int].0 == mounts@[i as int].0@);
        assert(views[j as int].0 == mounts@[j as int].0@);
        if crate::document::same_text(mounts[j].0.as_str(), mounts[i].0.as_str()) {
            assert(views[j as int].0 == views[i as int].0);
            return false;
        }
        j += 1;
    }
    true
}

/// The configuration with Envoy's own file server.
pub open spec fn builtin_file_server_config_text(root: Seq<char>) -> Seq<char> {
    bootstrap_text(
        listener_text(
            chains_text(
                FILE_SERVER_HEAD@
                    + json_string(root) + FILE_SERVER_TAIL@ + ROUTER@,
                PLAIN_HOST@,
                "ingress_http"@,
            ),
        ),
    )
}

/// Bootstrap using Envoy's built-in `file_server` filter over `root`, for
/// benchmark comparison. Not functional on macOS/Windows (POSIX-coupled).
pub fn builtin_file_server_config(root: &str) -> (res: String)
    ensures
        res@ == builtin_file_server_config_text(root@),
{
    let mut filters =
        FILE_SERVER_HEAD.to_owned();
    filters.append(quote_json(root).as_str());
    filters.append(FILE_SERVER_TAIL);
    filters.append(
        ROUTER,
    );
    let chains = chains(
        filters.as_str(),
        PLAIN_HOST,
        "ingress_http",
    );
    bootstrap(listener(chains.as_str()).as_str())
}

/// The configuration of the module that serves `root`, with blocking I/O or
/// with what the system offers.
pub open spec fn root_config_text(root: Seq<char>, force_blocking: bool) -> Seq<char> {
    (if force_blocking {
        r#"{"force_blocking":true,"root":"#@
    } else {
        r#"{"root":"#@
    }) + json_string(root) + "}"@
}

/// Configures the module to serve `root`, with blocking I/O or with what the
/// system offers.
pub fn root_config(root: &str, force_blocking: bool) -> (res: String)
    ensures
        res@ == root_config_text(root@, force_blocking),
{
    let mut out = (if force_blocking {
        r#"{"force_blocking":true,"root":"#
    } else {
        r#"{"root":"#
    }).to_owned();
    out.append(quote_json(root).as_str());
    out.append("}");
    out
}

/// The configuration of the `file-server` extension that serves `root`.
pub open spec fn extension_config_text(root: Seq<char>) -> Seq<char> {
    EXTENSION_HEAD@ + json_string(root) + EXTENSION_TAIL@
}

/// Configures the `file-server` extension of Built on Envoy to serve `root`,
/// for benchmark comparison.
pub fn extension_config(root: &str) -> (res: String)
    ensures
        res@ == extension_config_text(root@),
{
    let mut out = EXTENSION_HEAD.to_owned();
    out.append(quote_json(root).as_str());
    out.append(EXTENSION_TAIL);
    out
}

/// The chains of the outer listener of the cached configuration: the cache,
/// then routing into the internal listener.
pub open spec fn cache_chains_text() -> Seq<char> {
    chains_text(
        CACHE_HEAD@
            + ROUTER@,
        INTERNAL_HOST@,
        "outer"@,
    )
}

/// The internal listener of the cached configuration, which ends in the
/// module.
pub open spec fn internal_listener_text(filter_cfg: Seq<char>) -> Seq<char> {
    INTERNAL_LISTENER_HEAD@ + chains_text(
        module_filter_text(filter_cfg, true),
        INNER_HOST@,
        "inner"@,
    ) + INTERNAL_LISTENER_TAIL@
}

/// The configuration with a cache in front of the module.
pub open spec fn cachev2_composition_config_text(filter_cfg: Seq<char>) -> Seq<char> {
    BOOTSTRAP_HEAD@ + ADDRESS@
        + CACHE_RESOURCES@
        + listener_text(cache_chains_text()) + ","@ + internal_listener_text(filter_cfg) + "]}}"@
}

/// CacheV2 in the outer listener, routing into an internal listener that
/// terminates with the module. Proves composition without a fake upstream.
pub fn cachev2_composition_config(filter_cfg: &str) -> (res: String)
    ensures
        res@ == cachev2_composition_config_text(filter_cfg@),
{
    let mut filters =
        CACHE_HEAD.to_owned();
    filters.append(
        ROUTER,
    );
    let outer = chains(
        filters.as_str(),
        INTERNAL_HOST,
        "outer",
    );
    let module = dynamic_module_filter(filter_cfg, true);
    let inner = chains(module.as_str(), INNER_HOST, "inner");
    let mut internal = INTERNAL_LISTENER_HEAD.to_owned();
    internal.append(inner.as_str());
    internal.append(INTERNAL_LISTENER_TAIL);

    let mut out = BOOTSTRAP_HEAD.to_owned();
    out.append(ADDRESS);
    out.append(
        CACHE_RESOURCES,
    );
    out.append(listener(outer.as_str()).as_str());
    out.append(",");
    out.append(internal.as_str());
    out.append("]}}");
    out
}

/// The value of a hexadecimal digit in lower case.
pub open spec fn hex_digit_value(c: char) -> nat {
    if c <= '9' {
        (c as nat - 48) as nat
    } else {
        (c as nat - 87) as nat
    }
}

/// What the inside of a JSON string stands for.
pub open spec fn json_meaning(t: Seq<char>) -> Seq<char>
    decreases t.len(),
{
    if t.len() == 0 {
        seq![]
    } else if t[0] != '\\' {
        seq![t[0]] + json_meaning(t.skip(1))
    } else if t.len() >= 6 && t[1] == 'u' {
        seq![(hex_digit_value(t[4]) * 16 + hex_digit_value(t[5])) as char] + json_meaning(t.skip(6))
    } else if t.len() >= 2 {
        seq![
            if t[1] == 'b' {
                '\u{8}'
            } else if t[1] == 't' {
                '\u{9}'
            } else if t[1] == 'n' {
                '\u{a}'
            } else if t[1] == 'f' {
                '\u{c}'
            } else if t[1] == 'r' {
                '\u{d}'
            } else {
                t[1]
            },
        ] + json_meaning(t.skip(2))
    } else {
        seq![]
    }
}

proof fn lemma_json_chars_front(s: Seq<char>)
    requires
        s.len() > 0,
    ensures
        json_chars(s) == json_char(s[0]) + json_chars(s.skip(1)),
    decreases s.len(),
{
    if s.len() == 1 {
        assert(s.drop_last() =~= seq![]);
        assert(s.skip(1) =~= seq![]);
        assert(json_chars(s) =~= json_char(s[0]) + json_chars(s.skip(1)));
    } else {
        lemma_json_chars_front(s.drop_last());
        assert(s.skip(1).drop_last() =~= s.drop_last().skip(1));
        assert(json_chars(s) =~= json_char(s[0]) + json_chars(s.skip(1)));
    }
}

proof fn lemma_json_char_meaning(c: char, rest: Seq<char>)
    ensures
        json_meaning(json_char(c) + rest) == seq![c] + json_meaning(rest),
{
    let t = json_char(c) + rest;
    let n = json_char(c).len() as int;
    assert(t.skip(n) =~= rest);
    if '\u{20}' > c && n == 6 {
        vstd::utf8::char_is_scalar(c);
        let code = c as nat;
        assert(code < 32);
        assert(t[4] == text::digit_char(code / 16));
        assert(t[5] == text::digit_char(code % 16));
        assert(hex_digit_value(t[4]) == code / 16);
        assert(hex_digit_value(t[5]) == code % 16);
        assert(hex_digit_value(t[4]) * 16 + hex_digit_value(t[5]) == code);
    }
}

/// A text that is quoted as a JSON string is read back as it was.
pub proof fn law_json_string_reads_back(s: Seq<char>)
    ensures
        json_meaning(json_chars(s)) == s,
    decreases s.len(),
{
    if s.len() > 0 {
        lemma_json_chars_front(s);
        lemma_json_char_meaning(s[0], json_chars(s.skip(1)));
        law_json_string_reads_back(s.skip(1));
        assert(seq![s[0]] + s.skip(1) =~= s);
    } else {
        assert(json_meaning(json_chars(s)) =~= s);
    }
}

proof fn lemma_mounts_behind(
    first: (Seq<char>, Seq<char>),
    rest: Seq<(Seq<char>, Seq<char>)>,
    count: nat,
)
    requires
        count <= rest.len(),
        exists|j: int| 0 <= j < rest.len() && (#[trigger] rest[j]).0 == first.0,
    ensures
        mounts_text(seq![first] + rest, count + 1) == mounts_text(rest, count),
    decreases count,
{
    let all = seq![first] + rest;
    if count == 0 {
        let j = choose|j: int| 0 <= j < rest.len() && (#[trigger] rest[j]).0 == first.0;
        assert(all[j + 1].0 == all[0].0);
        assert(!mount_counts(all, 0));
        assert(mounts_text(all, 0) =~= seq![]);
    } else {
        lemma_mounts_behind(first, rest, (count - 1) as nat);
        assert(all[count as int] == rest[count - 1]);
        assert(mount_counts(all, count as int) <==> mount_counts(rest, count - 1)) by {
            if mount_counts(all, count as int) {
                assert forall|j: int| count - 1 < j < rest.len() implies (#[trigger] rest[j]).0
                    != rest[count - 1].0 by {
                    assert(all[j + 1].0 != all[count as int].0);
                }
            }
            if mount_counts(rest, count - 1) {
                assert forall|j: int| count < j < all.len() implies (#[trigger] all[j]).0
                    != all[count as int].0 by {
                    assert(rest[j - 1].0 != rest[count - 1].0);
                }
            }
        }
    }
}

proof fn lemma_mounts_before(
    mounts: Seq<(Seq<char>, Seq<char>)>,
    last: (Seq<char>, Seq<char>),
    count: nat,
)
    requires
        count <= mounts.len(),
        forall|j: int| 0 <= j < mounts.len() ==> (#[trigger] mounts[j]).0 != last.0,
    ensures
        mounts_text(mounts.push(last), count) == mounts_text(mounts, count),
    decreases count,
{
    let all = mounts.push(last);
    if count > 0 {
        let k = count - 1;
        lemma_mounts_before(mounts, last, k as nat);
        assert(all[k] == mounts[k]);
        assert(mount_counts(all, k) <==> mount_counts(mounts, k)) by {
            if mount_counts(all, k) {
                assert forall|j: int| k < j < mounts.len() implies (#[trigger] mounts[j]).0
                    != mounts[k].0 by {
                    assert(all[j].0 != all[k].0);
                }
            }
            if mount_counts(mounts, k) {
                assert forall|j: int| k < j < all.len() implies (#[trigger] all[j]).0
                    != all[k].0 by {
                    if j < mounts.len() {
                        assert(mounts[j].0 != mounts[k].0);
                    }
                }
            }
        }
    }
}

/// A mount behind others is added to them with its prefix and its
/// configuration, and one whose prefix comes again is left out.
pub proof fn law_every_mount_counts_once(
    mounts: Seq<(Seq<char>, Seq<char>)>,
    mount: (Seq<char>, Seq<char>),
)
    ensures
        (forall|j: int| 0 <= j < mounts.len() ==> (#[trigger] mounts[j]).0 != mount.0)
            ==> mounts_text(mounts.push(mount), mounts.len() + 1) == mounts_text(
            mounts,
            mounts.len(),
        ) + (if mounts.len() > 0 {
            ","@
        } else {
            ""@
        }) + json_string(mount.0) + ":"@ + mount_action_text(mount.1),
        (exists|j: int| 0 <= j < mounts.len() && (#[trigger] mounts[j]).0 == mount.0)
            ==> mounts_text(seq![mount] + mounts, mounts.len() + 1) == mounts_text(
            mounts,
            mounts.len(),
        ),
{
    if forall|j: int| 0 <= j < mounts.len() ==> (#[trigger] mounts[j]).0 != mount.0 {
        lemma_mounts_before(mounts, mount, mounts.len());
        let all = mounts.push(mount);
        assert(all[mounts.len() as int] == mount);
        assert(mount_counts(all, mounts.len() as int));
        lemma_mounts_are_not_empty(mounts);
    } else {
        lemma_mounts_behind(mount, mounts, mounts.len());
    }
}

proof fn lemma_mounts_are_not_empty(mounts: Seq<(Seq<char>, Seq<char>)>)
    ensures
        mounts_text(mounts, mounts.len()).len() == 0 <==> mounts.len() == 0,
{
    if mounts.len() > 0 {
        let k = mounts.len() - 1;
        assert(mount_counts(mounts, k));
        assert(json_string(mounts[k].0).len() > 0);
    }
}

/// The configurations of the module and of what it is compared with hold what
/// they are given as a JSON string, and apart from it are the same for all.
pub proof fn law_configurations_hold_what_they_are_given(
    x: Seq<char>,
    y: Seq<char>,
    flag: bool,
)
    ensures
        exists|a: Seq<char>, b: Seq<char>|
            module_filter_text(x, flag) == #[trigger] (a + json_string(x) + b)
                && module_filter_text(y, flag) == a + json_string(y) + b,
        exists|a: Seq<char>, b: Seq<char>|
            terminal_config_text(x) == #[trigger] (a + module_filter_text(x, true) + b)
                && terminal_config_text(y) == a + module_filter_text(y, true) + b,
        exists|a: Seq<char>, b: Seq<char>|
            builtin_file_server_config_text(x) == #[trigger] (a + json_string(x) + b)
                && builtin_file_server_config_text(y) == a + json_string(y) + b,
        exists|a: Seq<char>, b: Seq<char>|
            cachev2_composition_config_text(x) == #[trigger] (a + module_filter_text(x, true) + b)
                && cachev2_composition_config_text(y) == a + module_filter_text(y, true) + b,
        exists|a: Seq<char>, b: Seq<char>|
            mount_action_text(x) == #[trigger] (a + module_filter_text(x, true) + b)
                && mount_action_text(y) == a + module_filter_text(y, true) + b,
        exists|a: Seq<char>, b: Seq<char>|
            root_config_text(x, flag) == #[trigger] (a + json_string(x) + b) && root_config_text(
                y,
                flag,
            ) == a + json_string(y) + b,
        exists|a: Seq<char>, b: Seq<char>|
            extension_config_text(x) == #[trigger] (a + json_string(x) + b)
                && extension_config_text(y) == a + json_string(y) + b,
{
    lemma_module_filter_parts(x, y, flag);
    lemma_terminal_parts(x, y);
    lemma_builtin_parts(x, y);
    lemma_cached_parts(x, y);
    let (a, b) = (MOUNT_ACTION_HEAD@, "}}}"@);
    assert(mount_action_text(x) == a + module_filter_text(x, true) + b);
    assert(mount_action_text(y) == a + module_filter_text(y, true) + b);
    let c = if flag {
        r#"{"force_blocking":true,"root":"#@
    } else {
        r#"{"root":"#@
    };
    assert(root_config_text(x, flag) == c + json_string(x) + "}"@);
    assert(root_config_text(y, flag) == c + json_string(y) + "}"@);
    assert(extension_config_text(x) == EXTENSION_HEAD@ + json_string(x) + EXTENSION_TAIL@);
    assert(extension_config_text(y) == EXTENSION_HEAD@ + json_string(y) + EXTENSION_TAIL@);
}

spec fn around_filters(before: Seq<char>, host: Seq<char>, after: Seq<char>) -> (
    Seq<char>,
    Seq<char>,
) {
    let head = BOOTSTRAP_HEAD@ + ADDRESS@ + BOOTSTRAP_LISTENERS@ + (LISTENER_HEAD@ + ADDRESS@
        + LISTENER_CHAINS@ + (CHAINS_HEAD@ + before));
    let tail = after + CHAINS_HOSTS@ + host + CHAINS_PREFIX@ + json_string("ingress_http"@)
        + "}}]}]"@ + LISTENER_TAIL@ + "]}}"@;
    (head, tail)
}

proof fn lemma_around_filters(before: Seq<char>, x: Seq<char>, after: Seq<char>, host: Seq<char>)
    ensures
        ({
            let (a, b) = around_filters(before, host, after);
            bootstrap_text(listener_text(chains_text(before + x + after, host, "ingress_http"@)))
                == a + x + b
        }),
{
    let (a, b) = around_filters(before, host, after);
    let filters = before + x + after;
    let name = json_string("ingress_http"@);
    let behind = CHAINS_HOSTS@ + host + CHAINS_PREFIX@ + name + "}}]}]"@;
    let chains = chains_text(filters, host, "ingress_http"@);
    assert(chains =~= CHAINS_HEAD@ + filters + behind);
    let inner = LISTENER_HEAD@ + ADDRESS@ + LISTENER_CHAINS@;
    assert(listener_text(chains) =~= inner + chains + LISTENER_TAIL@);
    let outer = BOOTSTRAP_HEAD@ + ADDRESS@ + BOOTSTRAP_LISTENERS@;
    assert(bootstrap_text(listener_text(chains)) =~= outer + listener_text(chains) + "]}}"@);
    assert(a =~= outer + inner + CHAINS_HEAD@ + before);
    assert(b =~= after + behind + LISTENER_TAIL@ + "]}}"@);
    assert(outer + (inner + (CHAINS_HEAD@ + (before + x + after) + behind) + LISTENER_TAIL@)
        + "]}}"@ =~= outer + inner + CHAINS_HEAD@ + before + x + (after + behind + LISTENER_TAIL@
        + "]}}"@));
}

proof fn lemma_module_filter_parts(x: Seq<char>, y: Seq<char>, flag: bool)
    ensures
        exists|a: Seq<char>, b: Seq<char>|
            module_filter_text(x, flag) == #[trigger] (a + json_string(x) + b)
                && module_filter_text(y, flag) == a + json_string(y) + b,
{
    let a = MODULE_FILTER_HEAD@;
    let b = MODULE_FILTER_MIDDLE@ + (if flag {
        "true"@
    } else {
        "false"@
    }) + "}}"@;
    assert(module_filter_text(x, flag) =~= a + json_string(x) + b);
    assert(module_filter_text(y, flag) =~= a + json_string(y) + b);
}

proof fn lemma_terminal_parts(x: Seq<char>, y: Seq<char>)
    ensures
        exists|a: Seq<char>, b: Seq<char>|
            terminal_config_text(x) == #[trigger] (a + module_filter_text(x, true) + b)
                && terminal_config_text(y) == a + module_filter_text(y, true) + b,
{
    let none = Seq::<char>::empty();
    let (a, b) = around_filters(none, PLAIN_HOST@, none);
    let (p, q) = (module_filter_text(x, true), module_filter_text(y, true));
    assert(none + p + none =~= p);
    assert(none + q + none =~= q);
    lemma_around_filters(none, p, none, PLAIN_HOST@);
    lemma_around_filters(none, q, none, PLAIN_HOST@);
    assert(terminal_config_text(x) == a + p + b);
    assert(terminal_config_text(y) == a + q + b);
}

proof fn lemma_builtin_parts(x: Seq<char>, y: Seq<char>)
    ensures
        exists|a: Seq<char>, b: Seq<char>|
            builtin_file_server_config_text(x) == #[trigger] (a + json_string(x) + b)
                && builtin_file_server_config_text(y) == a + json_string(y) + b,
{
    let (head, tail) = (FILE_SERVER_HEAD@, FILE_SERVER_TAIL@ + ROUTER@);
    let (a, b) = around_filters(head, PLAIN_HOST@, tail);
    let (p, q) = (json_string(x), json_string(y));
    assert(head + p + FILE_SERVER_TAIL@ + ROUTER@ =~= head + p + tail);
    assert(head + q + FILE_SERVER_TAIL@ + ROUTER@ =~= head + q + tail);
    lemma_around_filters(head, p, tail, PLAIN_HOST@);
    lemma_around_filters(head, q, tail, PLAIN_HOST@);
    assert(builtin_file_server_config_text(x) == a + p + b);
    assert(builtin_file_server_config_text(y) == a + q + b);
}

proof fn lemma_cached_parts(x: Seq<char>, y: Seq<char>)
    ensures
        exists|a: Seq<char>, b: Seq<char>|
            cachev2_composition_config_text(x) == #[trigger] (a + module_filter_text(x, true) + b)
                && cachev2_composition_config_text(y) == a + module_filter_text(y, true) + b,
{
    let front = BOOTSTRAP_HEAD@ + ADDRESS@ + CACHE_RESOURCES@ + listener_text(cache_chains_text())
        + ","@;
    let behind = CHAINS_HOSTS@ + INNER_HOST@ + CHAINS_PREFIX@ + json_string("inner"@) + "}}]}]"@;
    let a = front + (INTERNAL_LISTENER_HEAD@ + CHAINS_HEAD@);
    let b = behind + INTERNAL_LISTENER_TAIL@ + "]}}"@;
    lemma_cached_part(x, front, behind);
    lemma_cached_part(y, front, behind);
    assert(cachev2_composition_config_text(x) == a + module_filter_text(x, true) + b);
}

proof fn lemma_cached_part(x: Seq<char>, front: Seq<char>, behind: Seq<char>)
    requires
        front == BOOTSTRAP_HEAD@ + ADDRESS@ + CACHE_RESOURCES@ + listener_text(cache_chains_text())
            + ","@,
        behind == CHAINS_HOSTS@ + INNER_HOST@ + CHAINS_PREFIX@ + json_string("inner"@) + "}}]}]"@,
    ensures
        cachev2_composition_config_text(x) == front + (INTERNAL_LISTENER_HEAD@ + CHAINS_HEAD@)
            + module_filter_text(x, true) + (behind + INTERNAL_LISTENER_TAIL@ + "]}}"@),
{
    let p = module_filter_text(x, true);
    let chains = chains_text(p, INNER_HOST@, "inner"@);
    assert(chains =~= CHAINS_HEAD@ + p + behind);
    let internal = internal_listener_text(x);
    assert(internal =~= INTERNAL_LISTENER_HEAD@ + (CHAINS_HEAD@ + p + behind)
        + INTERNAL_LISTENER_TAIL@);
    assert(cachev2_composition_config_text(x) =~= front + internal + "]}}"@);
    assert(front + (INTERNAL_LISTENER_HEAD@ + (CHAINS_HEAD@ + p + behind) + INTERNAL_LISTENER_TAIL@)
        + "]}}"@ =~= front + (INTERNAL_LISTENER_HEAD@ + CHAINS_HEAD@) + p + (behind
        + INTERNAL_LISTENER_TAIL@ + "]}}"@));
}

/// A JSON string is in quotes, and what stands between them is read back as the
/// text.
pub proof fn law_json_strings_are_in_quotes(s: Seq<char>)
    ensures
        json_string(s).len() >= 2,
        json_string(s)[0] == '"' && json_string(s).last() == '"',
        json_meaning(json_string(s).subrange(1, json_string(s).len() - 1)) == s,
{
    law_json_string_reads_back(s);
    assert(json_string(s).subrange(1, json_string(s).len() - 1) =~= json_chars(s));
}

/// The filter entry of the module says whether the filter is terminal, behind
/// all the rest.
pub proof fn law_filter_entries_say_whether_they_are_terminal(filter_cfg: Seq<char>)
    ensures
        exists|a: Seq<char>|
            module_filter_text(filter_cfg, true) == #[trigger] (a + "true}}"@)
                && module_filter_text(filter_cfg, false) == a + "false}}"@,
{
    reveal_strlit("true");
    reveal_strlit("false");
    reveal_strlit("}}");
    reveal_strlit("true}}");
    reveal_strlit("false}}");
    assert("true"@ + "}}"@ =~= "true}}"@);
    assert("false"@ + "}}"@ =~= "false}}"@);
    let a = MODULE_FILTER_HEAD@ + json_string(filter_cfg) + MODULE_FILTER_MIDDLE@;
    assert(module_filter_text(filter_cfg, true) =~= a + ("true"@ + "}}"@));
    assert(module_filter_text(filter_cfg, false) =~= a + ("false"@ + "}}"@));
}

} // verus!
