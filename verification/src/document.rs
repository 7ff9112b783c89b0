//! Reading a configuration document: YAML text as a list of named settings.

use crate::text;
use vstd::prelude::*;
use vstd::utf8::{decode_utf8, valid_utf8};
use yaml_rust2::{Yaml, YamlLoader};

verus! {

/// A YAML node, opaque here.
#[verifier::external_type_specification]
#[verifier::external_body]
pub struct ExYaml(yaml_rust2::Yaml);

/// The value of one setting, as far as a configuration looks into it: lists
/// and tables show which of their items are strings.
pub enum Setting {
    Text(String),
    Integer(i64),
    Boolean(bool),
    List(Vec<Option<String>>),
    Table(Vec<(Option<String>, Option<String>)>),
    /// A value that cannot be read as what its tag says. It counts as absent.
    Missing,
    Other,
}

/// What a [`Setting`] holds.
pub enum Content {
    Text(Seq<char>),
    Integer(i64),
    Boolean(bool),
    List(Seq<Option<Seq<char>>>),
    Table(Seq<(Option<Seq<char>>, Option<Seq<char>>)>),
    Missing,
    Other,
}

impl View for Setting {
    type V = Content;

    open spec fn view(&self) -> Content {
        match self {
            Setting::Text(text) => Content::Text(text@),
            Setting::Integer(n) => Content::Integer(*n),
            Setting::Boolean(b) => Content::Boolean(*b),
            Setting::List(items) => Content::List(items.deep_view()),
            Setting::Table(pairs) => Content::Table(pairs.deep_view()),
            Setting::Missing => Content::Missing,
            Setting::Other => Content::Other,
        }
    }
}

/// The first document of a YAML text, if there is one, or the message that
/// says why the text is no YAML.
pub uninterp spec fn first_document(text: Seq<char>) -> Result<Option<Yaml>, Seq<char>>;

/// The entries of a YAML node that is a map, in order, with the keys that are
/// strings.
pub uninterp spec fn node_entries(node: Yaml) -> Option<Seq<(Option<Seq<char>>, Yaml)>>;

/// The value of a YAML node.
pub uninterp spec fn node_value(node: Yaml) -> Content;

/// `yaml_rust2::YamlLoader::load_from_str`: the first of the documents, or the
/// text of the error. Both are functions of the text, named by
/// [`first_document`].
#[verifier::external_body]
fn load_first(text: &str) -> (res: Result<Option<Yaml>, String>)
    ensures
        match res {
            Ok(node) => first_document(text@) == Ok::<Option<Yaml>, Seq<char>>(node),
            Err(message) => first_document(text@) == Err::<Option<Yaml>, Seq<char>>(message@),
        },
{
    let docs = YamlLoader::load_from_str(text).map_err(|e| e.to_string())?;
    Ok(docs.into_iter().next())
}

/// `yaml_rust2::Yaml::as_hash`: the entries of a map in document order, with
/// the keys as strings where they are. They are named by [`node_entries`].
#[verifier::external_body]
fn entries_of(node: &Yaml) -> (res: Option<Vec<(Option<String>, Yaml)>>)
    ensures
        res is Some <==> node_entries(*node) is Some,
        res matches Some(entries) ==> node_entries(*node) == Some(
            entries@.map_values(|e: (Option<String>, Yaml)| (e.0.deep_view(), e.1)),
        ),
{
    let hash = node.as_hash()?;
    let string = |y: &Yaml| y.as_str().map(str::to_owned);
    Some(hash.iter().map(|(key, value)| (string(key), value.clone())).collect())
}

/// The variant of a `yaml_rust2::Yaml` node with what it holds, named by
/// [`node_value`].
#[verifier::external_body]
fn setting_of(node: &Yaml) -> (res: Setting)
    ensures
        res@ == node_value(*node),
{
    let string = |y: &Yaml| y.as_str().map(str::to_owned);
    match node {
        Yaml::String(text) => Setting::Text(text.clone()),
        Yaml::Integer(n) => Setting::Integer(*n),
        Yaml::Boolean(b) => Setting::Boolean(*b),
        Yaml::Array(items) => Setting::List(items.iter().map(string).collect()),
        Yaml::Hash(map) => {
            Setting::Table(map.iter().map(|(k, v)| (string(k), string(v))).collect())
        }
        Yaml::BadValue => Setting::Missing,
        Yaml::Real(_) | Yaml::Alias(_) | Yaml::Null => Setting::Other,
    }
}

/// `std::str::from_utf8`: the text that the bytes encode, if they are UTF-8.
#[verifier::external_body]
fn text_from_utf8(raw: &[u8]) -> (res: Option<&str>)
    ensures
        res is Some <==> valid_utf8(raw@),
        res matches Some(text) ==> text@ == decode_utf8(raw@),
{
    std::str::from_utf8(raw).ok()
}

/// The settings that a configuration can have.
pub open spec fn is_known_key(key: Seq<char>) -> bool {
    ||| key == "root"@
    ||| key == "strip_prefix"@
    ||| key == "index_files"@
    ||| key == "directory"@
    ||| key == "redirect_trailing_slash"@
    ||| key == "follow_symlinks_within_root"@
    ||| key == "serve_dotfiles"@
    ||| key == "chunk_size"@
    ||| key == "max_inflight_reads"@
    ||| key == "blocking_threads"@
    ||| key == "force_blocking"@
    ||| key == "etag"@
    ||| key == "last_modified"@
    ||| key == "ranges"@
    ||| key == "precompressed"@
    ||| key == "mime_overrides"@
    ||| key == "default_content_type"@
    ||| key == "cache_control"@
}

/// The entries with their keys, or the message about the first key that is no
/// string or not known.
pub open spec fn named_settings(entries: Seq<(Option<Seq<char>>, Content)>) -> Result<
    Seq<(Seq<char>, Content)>,
    Seq<char>,
>
    decreases entries.len(),
{
    if entries.len() == 0 {
        Ok(seq![])
    } else {
        match named_settings(entries.drop_last()) {
            Err(message) => Err(message),
            Ok(before) => match entries.last().0 {
                None => Err("config keys must be strings"@),
                Some(key) => if is_known_key(key) {
                    Ok(before.push((key, entries.last().1)))
                } else {
                    Err("unknown config key: "@ + key)
                },
            },
        }
    }
}

/// The settings of a configuration text, or the message about what is wrong
/// with it.
pub open spec fn document_settings(raw: Seq<u8>) -> Result<Seq<(Seq<char>, Content)>, Seq<char>> {
    if !valid_utf8(raw) {
        Err("config is not valid UTF-8"@)
    } else {
        match first_document(decode_utf8(raw)) {
            Err(message) => Err("config is not valid YAML: "@ + message),
            Ok(None) => Err("config is empty"@),
            Ok(Some(node)) => match node_entries(node) {
                None => Err("config must be a map"@),
                Some(entries) => named_settings(
                    entries.map_values(|e: (Option<Seq<char>>, Yaml)| (e.0, node_value(e.1))),
                ),
            },
        }
    }
}

/// A list of settings with optional keys, as sequences.
pub open spec fn entry_views(entries: Seq<(Option<String>, Setting)>) -> Seq<
    (Option<Seq<char>>, Content),
> {
    entries.map_values(|e: (Option<String>, Setting)| (e.0.deep_view(), e.1@))
}

/// A list of settings, as sequences.
pub open spec fn setting_views(settings: Seq<(String, Setting)>) -> Seq<(Seq<char>, Content)> {
    settings.map_values(|e: (String, Setting)| (e.0@, e.1@))
}

/// The value of the first setting with the given key.
pub open spec fn value_of(settings: Seq<(Seq<char>, Content)>, key: Seq<char>) -> Content
    decreases settings.len(),
{
    if settings.len() == 0 {
        Content::Missing
    } else if settings[0].0 == key {
        settings[0].1
    } else {
        value_of(settings.skip(1), key)
    }
}

/// Whether `res` is what `expected` says.
pub open spec fn settings_are(
    res: Result<Vec<(String, Setting)>, String>,
    expected: Result<Seq<(Seq<char>, Content)>, Seq<char>>,
) -> bool {
    match res {
        Ok(settings) => expected == Ok::<Seq<(Seq<char>, Content)>, Seq<char>>(
            setting_views(settings@),
        ),
        Err(message) => expected == Err::<Seq<(Seq<char>, Content)>, Seq<char>>(message@),
    }
}

/// Reads the settings of a configuration text. Every key is a string and one
/// of the known settings.
pub fn read_settings(raw: &[u8]) -> (res: Result<Vec<(String, Setting)>, String>)
    ensures
        settings_are(res, document_settings(raw@)),
{
    let text = match text_from_utf8(raw) {
        Some(text) => text,
        None => return Err("config is not valid UTF-8".to_owned()),
    };
    let node = match load_first(text) {
        Ok(Some(node)) => node,
        Ok(None) => return Err("config is empty".to_owned()),
        Err(message) => {
            let mut out = "config is not valid YAML: ".to_owned();
            out.append(message.as_str());
            return Err(out);
        },
    };
    let nodes = match entries_of(&node) {
        Some(nodes) => nodes,
        None => return Err("config must be a map".to_owned()),
    };
    let ghost given = nodes@.map_values(|e: (Option<String>, Yaml)| (e.0.deep_view(), e.1));
    let ghost expected = given.map_values(
        |e: (Option<Seq<char>>, Yaml)| (e.0, node_value(e.1)),
    );
    let mut entries: Vec<(Option<String>, Setting)> = Vec::new();
    let mut i: usize = 0;
    while i < nodes.len()
        invariant
            0 <= i <= nodes.len(),
            given == nodes@.map_values(|e: (Option<String>, Yaml)| (e.0.deep_view(), e.1)),
            expected == given.map_values(
                |e: (Option<Seq<char>>, Yaml)| (e.0, node_value(e.1)),
            ),
            entry_views(entries@) == expected.take(i as int),
        decreases nodes.len() - i,
    {
        let ghost before = entry_views(entries@);
        let key = match &nodes[i].0 {
            Some(key) => Some(key.clone()),
            None => None,
        };
        let setting = setting_of(&nodes[i].1);
        entries.push((key, setting));
        proof {
            assert(entry_views(entries@) =~= before.push((key.deep_view(), setting@)));
            assert(expected[i as int] == (nodes@[i as int].0.deep_view(), node_value(
                nodes@[i as int].1,
            )));
            assert(expected.take(i + 1) =~= expected.take(i as int).push(expected[i as int]));
        }
        i += 1;
    }
    assert(expected.take(i as int) =~= expected);
    name_settings(entries)
}

/// Checks the keys of the entries: every one is a string and a known setting.
pub fn name_settings(entries: Vec<(Option<String>, Setting)>) -> (res: Result<
    Vec<(String, Setting)>,
    String,
>)
    ensures
        settings_are(res, named_settings(entry_views(entries@))),
{
    let ghost all = entry_views(entries@);
    let ghost given = entries@;
    let mut settings: Vec<(String, Setting)> = Vec::new();
    assert(all.take(0) =~= seq![]);
    assert(setting_views(settings@) =~= seq![]);
    for entry in it: entries
        invariant
            it.seq() == given,
            all == entry_views(given),
            named_settings(all.take(it.index() as int)) == Ok::<
                Seq<(Seq<char>, Content)>,
                Seq<char>,
            >(setting_views(settings@)),
    {
        let ghost i = it.index() as int;
        let ghost before = setting_views(settings@);
        proof {
            assert(entry == given[i]);
            assert(all.take(i + 1).drop_last() =~= all.take(i));
            assert(all.take(i + 1).last() == (entry.0.deep_view(), entry.1@));
        }
        match entry.0 {
            Some(key) => {
                if !check_known_key(key.as_str()) {
                    let mut out = "unknown config key: ".to_owned();
                    out.append(key.as_str());
                    proof {
                        lemma_bad_key_stays(all, i + 1);
                    }
                    return Err(out);
                }
                settings.push((key, entry.1));
                assert(setting_views(settings@) =~= before.push((key@, entry.1@)));
            },
            None => {
                proof {
                    lemma_bad_key_stays(all, i + 1);
                }
                return Err("config keys must be strings".to_owned());
            },
        }
    }
    assert(all.take(given.len() as int) =~= all);
    Ok(settings)
}

proof fn lemma_bad_key_stays(entries: Seq<(Option<Seq<char>>, Content)>, k: int)
    requires
        0 <= k <= entries.len(),
        named_settings(entries.take(k)) is Err,
    ensures
        named_settings(entries) == named_settings(entries.take(k)),
    decreases entries.len(),
{
    if k < entries.len() {
        assert(entries.drop_last().take(k) =~= entries.take(k));
        lemma_bad_key_stays(entries.drop_last(), k);
    } else {
        assert(entries.take(k) =~= entries);
    }
}

/// Whether two texts are the same.
pub fn same_text(a: &str, b: &str) -> (res: bool)
    ensures
        res == (a@ == b@),
{
    text::same(text::chars(a).as_slice(), text::chars(b).as_slice())
}

fn check_known_key(key: &str) -> (res: bool)
    ensures
        res == is_known_key(key@),
{
    same_text(key, "root") || same_text(key, "strip_prefix") || same_text(key, "index_files")
        || same_text(key, "directory") || same_text(key, "redirect_trailing_slash") || same_text(
        key,
        "follow_symlinks_within_root",
    ) || same_text(key, "serve_dotfiles") || same_text(key, "chunk_size") || same_text(
        key,
        "max_inflight_reads",
    ) || same_text(key, "blocking_threads") || same_text(key, "force_blocking") || same_text(
        key,
        "etag",
    ) || same_text(key, "last_modified") || same_text(key, "ranges") || same_text(
        key,
        "precompressed",
    ) || same_text(key, "mime_overrides") || same_text(key, "default_content_type") || same_text(
        key,
        "cache_control",
    )
}

/// Finds the value of a setting. `None` when it is absent.
pub fn find_setting<'a>(settings: &'a [(String, Setting)], key: &str) -> (res: Option<&'a Setting>)
    ensures
        res matches Some(setting) ==> setting@ == value_of(setting_views(settings@), key@)
            && setting@ !is Missing,
        res is None ==> value_of(setting_views(settings@), key@) is Missing,
{
    let ghost views = setting_views(settings@);
    let mut i: usize = 0;
    assert(views.skip(0) =~= views);
    while i < settings.len()
        invariant
            0 <= i <= settings.len(),
            views == setting_views(settings@),
            value_of(views, key@) == value_of(views.skip(i as int), key@),
        decreases settings.len() - i,
    {
        proof {
            assert(views.skip(i as int)[0] == views[i as int]);
            assert(views.skip(i as int).skip(1) =~= views.skip(i + 1));
        }
        if same_text(settings[i].0.as_str(), key) {
            return match &settings[i].1 {
                Setting::Missing => None,
                setting => Some(setting),
            };
        }
        i += 1;
    }
    None
}

/// The value of a setting is that of the first entry with its key. `k` is the
/// place of that entry, or the number of entries where there is none.
pub proof fn law_the_first_entry_with_a_key_counts(
    settings: Seq<(Seq<char>, Content)>,
    key: Seq<char>,
    k: int,
)
    requires
        0 <= k <= settings.len(),
        k < settings.len() ==> settings[k].0 == key,
        forall|i: int| 0 <= i < k ==> (#[trigger] settings[i]).0 != key,
    ensures
        k < settings.len() ==> value_of(settings, key) == settings[k].1,
        k == settings.len() ==> value_of(settings, key) is Missing,
    decreases k,
{
    if k > 0 {
        assert(settings[0].0 != key);
        let rest = settings.skip(1);
        assert forall|i: int| 0 <= i < k - 1 implies (#[trigger] rest[i]).0 != key by {
            assert(rest[i] == settings[i + 1]);
        }
        law_the_first_entry_with_a_key_counts(rest, key, k - 1);
    }
}

/// The known settings, as they are documented.
pub proof fn law_known_settings_are_the_documented_ones(key: Seq<char>)
    ensures
        is_known_key(key) <==> seq![
            "root"@,
            "strip_prefix"@,
            "index_files"@,
            "directory"@,
            "redirect_trailing_slash"@,
            "follow_symlinks_within_root"@,
            "serve_dotfiles"@,
            "chunk_size"@,
            "max_inflight_reads"@,
            "blocking_threads"@,
            "force_blocking"@,
            "etag"@,
            "last_modified"@,
            "ranges"@,
            "precompressed"@,
            "mime_overrides"@,
            "default_content_type"@,
            "cache_control"@,
        ].contains(key),
{
    let all = seq![
        "root"@,
        "strip_prefix"@,
        "index_files"@,
        "directory"@,
        "redirect_trailing_slash"@,
        "follow_symlinks_within_root"@,
        "serve_dotfiles"@,
        "chunk_size"@,
        "max_inflight_reads"@,
        "blocking_threads"@,
        "force_blocking"@,
        "etag"@,
        "last_modified"@,
        "ranges"@,
        "precompressed"@,
        "mime_overrides"@,
        "default_content_type"@,
        "cache_control"@,
    ];
    assert(all[0] == "root"@ && all[1] == "strip_prefix"@ && all[2] == "index_files"@ && all[3]
        == "directory"@ && all[4] == "redirect_trailing_slash"@ && all[5]
        == "follow_symlinks_within_root"@ && all[6] == "serve_dotfiles"@ && all[7]
        == "chunk_size"@ && all[8] == "max_inflight_reads"@ && all[9] == "blocking_threads"@
        && all[10] == "force_blocking"@ && all[11] == "etag"@ && all[12] == "last_modified"@
        && all[13] == "ranges"@ && all[14] == "precompressed"@ && all[15] == "mime_overrides"@
        && all[16] == "default_content_type"@ && all[17] == "cache_control"@);
    if all.contains(key) {
        let i = choose|i: int| 0 <= i < all.len() && all[i] == key;
        assert(0 <= i < 18);
    }
}

/// Every entry of a document is checked and kept: the settings are the entries
/// with their keys, all of them, in order, unless some key is no string or not
/// known. Then the first such key is what is reported. `k` is its place, or the
/// number of entries where there is none.
pub proof fn law_every_entry_is_a_known_setting(
    entries: Seq<(Option<Seq<char>>, Content)>,
    k: int,
)
    requires
        0 <= k <= entries.len(),
        forall|i: int|
            0 <= i < k ==> (#[trigger] entries[i]).0 is Some && is_known_key(entries[i].0->0),
        k < entries.len() ==> entries[k].0 is None || !is_known_key(entries[k].0->0),
    ensures
        k == entries.len() ==> {
            &&& named_settings(entries) matches Ok(settings)
            &&& settings.len() == entries.len()
            &&& forall|i: int|
                0 <= i < entries.len() ==> Some((#[trigger] settings[i]).0) == entries[i].0
                    && settings[i].1 == entries[i].1
        },
        k < entries.len() && entries[k].0 is None ==> named_settings(entries) == Err::<
            Seq<(Seq<char>, Content)>,
            Seq<char>,
        >("config keys must be strings"@),
        k < entries.len() && entries[k].0 is Some ==> named_settings(entries) == Err::<
            Seq<(Seq<char>, Content)>,
            Seq<char>,
        >("unknown config key: "@ + entries[k].0->0),
    decreases entries.len(),
{
    if entries.len() > 0 {
        let rest = entries.drop_last();
        let last = entries.len() - 1;
        assert forall|i: int| 0 <= i < last implies #[trigger] entries[i] == rest[i] by {}
        if k == entries.len() {
            assert(entries[last].0 is Some);
            law_every_entry_is_a_known_setting(rest, k - 1);
            let before = named_settings(rest)->Ok_0;
            let settings = named_settings(entries)->Ok_0;
            assert(settings == before.push((entries[last].0->0, entries[last].1)));
            assert forall|i: int| 0 <= i < entries.len() implies Some((#[trigger] settings[i]).0)
                == entries[i].0 && settings[i].1 == entries[i].1 by {
                if i < last {
                    assert(settings[i] == before[i]);
                }
            }
        } else {
            assert(k <= rest.len());
            law_every_entry_is_a_known_setting(rest, k);
        }
    }
}

/// A configuration text that cannot be read is reported by what is wrong with
/// it; else every entry of its first document counts.
pub proof fn law_documents_are_read_or_reported(raw: Seq<u8>)
    ensures
        !valid_utf8(raw) ==> document_settings(raw) == Err::<Seq<(Seq<char>, Content)>, Seq<char>>(
            "config is not valid UTF-8"@,
        ),
        valid_utf8(raw) ==> match first_document(decode_utf8(raw)) {
            Err(message) => document_settings(raw) == Err::<Seq<(Seq<char>, Content)>, Seq<char>>(
                "config is not valid YAML: "@ + message,
            ),
            Ok(None) => document_settings(raw) == Err::<Seq<(Seq<char>, Content)>, Seq<char>>(
                "config is empty"@,
            ),
            Ok(Some(node)) => match node_entries(node) {
                None => document_settings(raw) == Err::<Seq<(Seq<char>, Content)>, Seq<char>>(
                    "config must be a map"@,
                ),
                Some(entries) => document_settings(raw) == named_settings(
                    Seq::new(entries.len(), |i: int| (entries[i].0, node_value(entries[i].1))),
                ),
            },
        },
{
    if valid_utf8(raw) {
        if let Ok(Some(node)) = first_document(decode_utf8(raw)) {
            if let Some(entries) = node_entries(node) {
                assert(entries.map_values(
                    |e: (Option<Seq<char>>, Yaml)| (e.0, node_value(e.1)),
                ) =~= Seq::new(
                    entries.len(),
                    |i: int| (entries[i].0, node_value(entries[i].1)),
                ));
            }
        }
    }
}

} // verus!
