//! Negotiation of pre-compressed asset variants against the client's
//! `Accept-Encoding` header.

use crate::text;
use vstd::prelude::*;
use vstd::relations::{sorted_by, total_ordering};
use vstd::slice::slice_subrange;

verus! {

/// A pre-compressed encoding the server can serve: the suffix appended to the
/// base filename to locate the variant, and the `Content-Encoding` token
/// (which is also what is matched against `Accept-Encoding`).
#[derive(Debug, Clone, Copy, PartialEq, Eq)]
pub struct Encoding {
    pub file_suffix: &'static str,
    pub content_encoding: &'static str,
}

impl Encoding {
    /// Brotli, in files with the suffix `.br`.
    pub fn brotli() -> (res: Self)
        ensures
            res.file_suffix@ == ".br"@,
            res.content_encoding@ == "br"@,
    {
        Encoding { file_suffix: ".br", content_encoding: "br" }
    }

    /// Gzip, in files with the suffix `.gz`.
    pub fn gzip() -> (res: Self)
        ensures
            res.file_suffix@ == ".gz"@,
            res.content_encoding@ == "gzip"@,
    {
        Encoding { file_suffix: ".gz", content_encoding: "gzip" }
    }

    /// Zstandard, in files with the suffix `.zst`.
    pub fn zstd() -> (res: Self)
        ensures
            res.file_suffix@ == ".zst"@,
            res.content_encoding@ == "zstd"@,
    {
        Encoding { file_suffix: ".zst", content_encoding: "zstd" }
    }
}

/// Encodings as their file suffixes and content codings.
pub open spec fn encoding_views(encodings: Seq<Encoding>) -> Seq<(Seq<char>, Seq<char>)> {
    encodings.map_values(|e: Encoding| (e.file_suffix@, e.content_encoding@))
}

/// The quality of a coding that is listed without one: the bit pattern of the
/// single-precision number 1.
pub const DEFAULT_QUALITY: u32 = 0x3f80_0000;

/// The bit pattern of the single-precision infinity. The bit patterns of the
/// numbers above zero are those from 1 up to it, in the same order.
pub const INFINITE_QUALITY: u32 = 0x7f80_0000;

/// One entry of an `Accept-Encoding` header.
pub struct Entry {
    pub name: Seq<char>,
    pub quality: u32,
}

/// The text of a `q=` parameter, if `param` is one.
pub open spec fn quality_text(param: Seq<char>) -> Option<Seq<char>> {
    let param = text::trimmed(param);
    if text::has_prefix(param, "q="@) {
        Some(text::trimmed(param.skip("q="@.len() as int)))
    } else {
        None
    }
}

/// The quality that the parameters give: that of the last `q=`, or the default
/// where there is none. `None` when some `q=` is not a number.
pub open spec fn entry_quality(
    params: Seq<Seq<char>>,
    number: spec_fn(Seq<char>) -> Option<u32>,
) -> Option<u32>
    decreases params.len(),
{
    if params.len() == 0 {
        Some(DEFAULT_QUALITY)
    } else {
        match entry_quality(params.drop_last(), number) {
            None => None,
            Some(before) => match quality_text(params.last()) {
                None => Some(before),
                Some(digits) => number(digits),
            },
        }
    }
}

/// One item of the header: `None` when malformed, else its entry.
pub open spec fn item_entry(
    item: Seq<char>,
    number: spec_fn(Seq<char>) -> Option<u32>,
) -> Option<Entry> {
    let parts = text::pieces(item, ';');
    let name = text::trimmed(parts[0]);
    match entry_quality(parts.skip(1), number) {
        Some(quality) if name.len() > 0 => Some(Entry { name, quality }),
        _ => None,
    }
}

/// The entries of the items that are more than white space, or `None` when one
/// of them is malformed.
pub open spec fn header_entries(
    items: Seq<Seq<char>>,
    number: spec_fn(Seq<char>) -> Option<u32>,
) -> Option<Seq<Entry>>
    decreases items.len(),
{
    if items.len() == 0 {
        Some(seq![])
    } else {
        let item = text::trimmed(items.last());
        match header_entries(items.drop_last(), number) {
            None => None,
            Some(before) => if item.len() == 0 {
                Some(before)
            } else {
                match item_entry(item, number) {
                    Some(entry) => Some(before.push(entry)),
                    None => None,
                }
            },
        }
    }
}

/// The quality of the first entry that names `coding`, ignoring ASCII case.
pub open spec fn named_quality(entries: Seq<Entry>, coding: Seq<char>) -> Option<u32>
    decreases entries.len(),
{
    if entries.len() == 0 {
        None
    } else if text::lower_all(entries[0].name) == text::lower_all(coding) {
        Some(entries[0].quality)
    } else {
        named_quality(entries.skip(1), coding)
    }
}

/// The quality that the entries give to `coding`: that of the first entry with
/// its name, else that of the first `*`.
pub open spec fn quality_for(entries: Seq<Entry>, coding: Seq<char>) -> Option<u32> {
    match named_quality(entries, coding) {
        Some(quality) => Some(quality),
        None => named_quality(entries, seq!['*']),
    }
}

/// Whether a quality admits a coding: it is a number above zero.
pub open spec fn is_acceptable(quality: Option<u32>) -> bool {
    quality matches Some(q) && 0 < q <= INFINITE_QUALITY
}

/// The acceptable encodings among the first `count` of `order`, as qualities
/// with positions in `order`.
pub open spec fn scored(entries: Seq<Entry>, order: Seq<(Seq<char>, Seq<char>)>, count: nat) -> Seq<(u32, usize)>
    decreases count,
{
    if count == 0 {
        seq![]
    } else {
        let before = scored(entries, order, (count - 1) as nat);
        let quality = quality_for(entries, order[count - 1].1);
        if is_acceptable(quality) {
            before.push((quality->0, (count - 1) as usize))
        } else {
            before
        }
    }
}

/// By client quality, descending, then by server preference.
pub open spec fn preferred() -> spec_fn((u32, usize), (u32, usize)) -> bool {
    |a: (u32, usize), b: (u32, usize)| a.0 > b.0 || (a.0 == b.0 && a.1 <= b.1)
}

/// The encodings to try, best first.
pub open spec fn negotiated(
    accept_encoding: Option<Seq<char>>,
    order: Seq<(Seq<char>, Seq<char>)>,
    number: spec_fn(Seq<char>) -> Option<u32>,
) -> Seq<(Seq<char>, Seq<char>)> {
    match accept_encoding {
        None => seq![],
        Some(header) => match header_entries(text::pieces(header, ','), number) {
            None => seq![],
            Some(entries) => scored(entries, order, order.len()).sort_by(preferred()).map_values(
                |s: (u32, usize)| order[s.1 as int],
            ),
        },
    }
}

/// Reads no text as a quality. It stands for any reading where none is asked
/// for.
pub open spec fn no_quality() -> spec_fn(Seq<char>) -> Option<u32> {
    |s: Seq<char>| None
}

/// Whether `number` describes what `parse` returns.
pub open spec fn describes<F: Fn(&str) -> Option<u32>>(
    parse: F,
    number: spec_fn(Seq<char>) -> Option<u32>,
) -> bool {
    forall|s: &str, r: Option<u32>| call_ensures(parse, (s,), r) ==> r == number(s@)
}

struct AcceptEncodingEntry {
    name: Vec<char>,
    quality: u32,
}

spec fn entry_views(entries: Seq<AcceptEncodingEntry>) -> Seq<Entry> {
    entries.map_values(|e: AcceptEncodingEntry| Entry { name: e.name@, quality: e.quality })
}

/// Returns the encodings from `order` (the server's supported encodings, in
/// server-preference order) that the client's `Accept-Encoding` header
/// allows, sorted by the client's stated preference (`q` value, descending)
/// with ties broken by each encoding's position in `order`.
///
/// A missing `Accept-Encoding` header is treated as compression not supported.
///
/// `parse_quality` reads a `q` value as a single-precision number and returns
/// its bit pattern, or `None` when the text is no number.
pub fn negotiate_precompressed<F: Fn(&str) -> Option<u32>>(
    accept_encoding: Option<&str>,
    order: &[Encoding],
    parse_quality: F,
) -> (res: Vec<Encoding>)
    requires
        forall|s: &str| call_requires(parse_quality, (s,)),
    ensures
        forall|number: spec_fn(Seq<char>) -> Option<u32>| #[trigger]
            describes(parse_quality, number) ==> encoding_views(res@) == negotiated(
                crate::validators::text_of(accept_encoding),
                encoding_views(order@),
                number,
            ),
        forall|i: int| 0 <= i < res@.len() ==> order@.contains(#[trigger] res@[i]),
        // Without the header nothing is negotiated, however qualities are read.
        accept_encoding is None ==> res@.len() == 0,
{
    let ghost offered = encoding_views(order@);
    assert(encoding_views(Seq::<Encoding>::empty()) =~= seq![]);
    let header = match accept_encoding {
        Some(header) => text::chars(header),
        None => return Vec::new(),
    };
    let entries = match parse_accept_encoding(header.as_slice(), &parse_quality) {
        Some(entries) => entries,
        None => return Vec::new(),
    };
    let ranks = rank_encodings(&entries, order);
    let mut res: Vec<Encoding> = Vec::new();
    let ghost sorted = scored(entry_views(entries@), offered, order@.len()).sort_by(preferred());
    let ghost chosen = sorted.map_values(|s: (u32, usize)| offered[s.1 as int]);
    let mut i: usize = 0;
    while i < ranks.len()
        invariant
            0 <= i <= ranks.len(),
            ranks@ == sorted,
            offered == encoding_views(order@),
            chosen == sorted.map_values(|s: (u32, usize)| offered[s.1 as int]),
            forall|j: int| 0 <= j < res@.len() ==> order@.contains(#[trigger] res@[j]),
            forall|j: int| 0 <= j < ranks@.len() ==> (#[trigger] ranks@[j]).1 < order@.len(),
            encoding_views(res@) == chosen.take(i as int),
        decreases ranks.len() - i,
    {
        let rank: usize = ranks[i].1;
        let ghost before = res@;
        let encoding = order[rank];
        res.push(encoding);
        proof {
            assert(order@.contains(order@[rank as int]));
            assert(encoding_views(res@) =~= encoding_views(before).push(offered[rank as int]));
            assert(chosen.take(i + 1) =~= chosen.take(i as int).push(chosen[i as int]));
        }
        i += 1;
    }
    assert(chosen.take(i as int) =~= chosen);
    res
}

proof fn lemma_preferred_is_total()
    ensures
        total_ordering(preferred()),
{
}

proof fn lemma_scored_in_bounds(entries: Seq<Entry>, order: Seq<(Seq<char>, Seq<char>)>, count: nat)
    requires
        count <= order.len() <= usize::MAX,
    ensures
        forall|j: int|
            0 <= j < scored(entries, order, count).len() ==> (#[trigger] scored(
                entries,
                order,
                count,
            )[j]).1 < count,
    decreases count,
{
    if count > 0 {
        lemma_scored_in_bounds(entries, order, (count - 1) as nat);
        let before = scored(entries, order, (count - 1) as nat);
        let after = scored(entries, order, count);
        assert forall|j: int| 0 <= j < after.len() implies (#[trigger] after[j]).1 < count by {
            if j < before.len() {
                assert(after[j] == before[j]);
            }
        }
    }
}

/// The acceptable encodings as qualities with positions in `order`, best first.
fn rank_encodings(entries: &Vec<AcceptEncodingEntry>, order: &[Encoding]) -> (res: Vec<
    (u32, usize),
>)
    ensures
        res@ == scored(
            entry_views(entries@),
            encoding_views(order@),
            order@.len(),
        ).sort_by(preferred()),
        forall|j: int| 0 <= j < res@.len() ==> (#[trigger] res@[j]).1 < order@.len(),
{
    let mut ranks: Vec<(u32, usize)> = Vec::new();
    let ghost views = entry_views(entries@);
    let ghost offered = encoding_views(order@);
    let mut i: usize = 0;
    assert(ranks@.to_multiset() =~= scored(views, offered, 0).to_multiset()) by {
        assert(ranks@ =~= scored(views, offered, 0));
    }
    while i < order.len()
        invariant
            0 <= i <= order.len(),
            views == entry_views(entries@),
            offered == encoding_views(order@),
            sorted_by(ranks@, preferred()),
            ranks@.to_multiset() == scored(views, offered, i as nat).to_multiset(),
        decreases order.len() - i,
    {
        let ghost before = scored(views, offered, i as nat);
        assert(offered[i as int].1 == order@[i as int].content_encoding@);
        let quality = acceptance_for(entries, order[i].content_encoding);
        if let Some(q) = quality {
            if q > 0 && q <= INFINITE_QUALITY {
                insert_ranked(&mut ranks, (q, i));
                proof {
                    broadcast use vstd::seq_lib::group_to_multiset_ensures;

                    assert(before.push((q, i)).to_multiset() =~= before.to_multiset().insert(
                        (q, i),
                    ));
                }
            }
        }
        i += 1;
    }
    proof {
        let all = scored(views, offered, order@.len());
        lemma_preferred_is_total();
        all.lemma_sort_by_ensures(preferred());
        vstd::seq_lib::lemma_sorted_unique(ranks@, all.sort_by(preferred()), preferred());
        lemma_scored_in_bounds(views, offered, order@.len());
        assert forall|j: int| 0 <= j < ranks@.len() implies (#[trigger] ranks@[j]).1
            < order@.len() by {
            assert(ranks@.contains(ranks@[j]));
            assert(all.contains(ranks@[j]));
        }
    }
    ranks
}

/// Puts an entry into its place in a ranking.
fn insert_ranked(ranks: &mut Vec<(u32, usize)>, entry: (u32, usize))
    requires
        sorted_by(old(ranks)@, preferred()),
    ensures
        sorted_by(final(ranks)@, preferred()),
        final(ranks)@.to_multiset() == old(ranks)@.to_multiset().insert(entry),
{
    let ghost before = ranks@;
    let mut at: usize = 0;
    while at < ranks.len() && (ranks[at].0 > entry.0 || (ranks[at].0 == entry.0 && ranks[at].1
        <= entry.1))
        invariant
            0 <= at <= ranks.len(),
            ranks@ == before,
            forall|j: int| 0 <= j < at ==> #[trigger] preferred()(before[j], entry),
        decreases ranks.len() - at,
    {
        at += 1;
    }
    ranks.insert(at, entry);
    proof {
        lemma_preferred_is_total();
        assert(before.insert(at as int, entry).to_multiset() =~= before.to_multiset().insert(
            entry,
        )) by {
            broadcast use vstd::seq_lib::group_to_multiset_ensures;

        }
        let after = before.insert(at as int, entry);
        assert forall|i: int, j: int| 0 <= i < j < after.len() implies #[trigger] preferred()(
            after[i],
            after[j],
        ) by {
            if i < at && j == at {
                assert(preferred()(before[i], entry));
            } else if i < at && j < at {
                assert(preferred()(before[i], before[j]));
            } else if i < at {
                assert(preferred()(before[i], before[j - 1]));
            } else if i == at {
                assert(preferred()(entry, before[at as int]));
                if j - 1 > at {
                    assert(preferred()(before[at as int], before[j - 1]));
                }
            } else {
                assert(preferred()(before[i - 1], before[j - 1]));
            }
        }
    }
}

/// Parses an `Accept-Encoding` header into entries. Returns `None` if the
/// header is malformed (e.g. an unparseable `q` value).
fn parse_accept_encoding<F: Fn(&str) -> Option<u32>>(header: &[char], parse_quality: &F) -> (res:
    Option<Vec<AcceptEncodingEntry>>)
    requires
        forall|s: &str| call_requires(*parse_quality, (s,)),
    ensures
        forall|number: spec_fn(Seq<char>) -> Option<u32>| #[trigger]
            describes(*parse_quality, number) ==> match header_entries(
                text::pieces(header@, ','),
                number,
            ) {
                None => res is None,
                Some(entries) => res is Some && entry_views((res->0)@) == entries,
            },
{
    let items = text::split(header, ',');
    let ghost all = text::pieces(header@, ',');
    let mut entries: Vec<AcceptEncodingEntry> = Vec::new();
    let mut i: usize = 0;
    assert(all.take(0) =~= seq![]);
    assert(entry_views(entries@) =~= seq![]);
    while i < items.len()
        invariant
            0 <= i <= items.len(),
            forall|s: &str| call_requires(*parse_quality, (s,)),
            items@.len() == all.len(),
            all == text::pieces(header@, ','),
            forall|j: int| 0 <= j < all.len() ==> (#[trigger] items@[j])@ == all[j],
            forall|number: spec_fn(Seq<char>) -> Option<u32>| #[trigger]
                describes(*parse_quality, number) ==> header_entries(all.take(i as int), number)
                    == Some(entry_views(entries@)),
        decreases items.len() - i,
    {
        let item = text::trim(items[i]);
        let ghost before = entry_views(entries@);
        proof {
            assert(all.take(i + 1).drop_last() =~= all.take(i as int));
            assert(all.take(i + 1).last() == all[i as int]);
        }
        i += 1;
        if item.len() > 0 {
            match parse_item(item, parse_quality) {
                Some(entry) => {
                    entries.push(entry);
                    assert(entry_views(entries@) =~= before.push(
                        Entry { name: entry.name@, quality: entry.quality },
                    ));
                },
                None => {
                    proof {
                        assert forall|number: spec_fn(Seq<char>) -> Option<u32>| #[trigger]
                            describes(*parse_quality, number) implies header_entries(
                            all,
                            number,
                        ) is None by {
                            lemma_malformed_stays(all, number, i as int);
                        }
                    }
                    return None;
                },
            }
        }
    }
    assert(all.take(i as int) =~= all);
    Some(entries)
}

proof fn lemma_malformed_stays(
    items: Seq<Seq<char>>,
    number: spec_fn(Seq<char>) -> Option<u32>,
    k: int,
)
    requires
        0 <= k <= items.len(),
        header_entries(items.take(k), number) is None,
    ensures
        header_entries(items, number) is None,
    decreases items.len(),
{
    if k < items.len() {
        assert(items.drop_last().take(k) =~= items.take(k));
        lemma_malformed_stays(items.drop_last(), number, k);
    } else {
        assert(items.take(k) =~= items);
    }
}

fn parse_item<F: Fn(&str) -> Option<u32>>(item: &[char], parse_quality: &F) -> (res: Option<
    AcceptEncodingEntry,
>)
    requires
        forall|s: &str| call_requires(*parse_quality, (s,)),
    ensures
        forall|number: spec_fn(Seq<char>) -> Option<u32>| #[trigger]
            describes(*parse_quality, number) ==> match item_entry(item@, number) {
                None => res is None,
                Some(entry) => res is Some && (res->0).name@ == entry.name && (res->0).quality
                    == entry.quality,
            },
{
    let parts = text::split(item, ';');
    let ghost all = text::pieces(item@, ';');
    let ghost params = all.skip(1);
    let name = text::trim(parts[0]);
    if name.len() == 0 {
        return None;
    }
    let mut quality: u32 = DEFAULT_QUALITY;
    let mut i: usize = 1;
    assert(params.take(0) =~= seq![]);
    while i < parts.len()
        invariant
            1 <= i <= parts.len(),
            forall|s: &str| call_requires(*parse_quality, (s,)),
            parts@.len() == all.len(),
            all == text::pieces(item@, ';'),
            params == all.skip(1),
            name@ == text::trimmed(all[0]),
            name@.len() > 0,
            forall|j: int| 0 <= j < all.len() ==> (#[trigger] parts@[j])@ == all[j],
            forall|number: spec_fn(Seq<char>) -> Option<u32>| #[trigger]
                describes(*parse_quality, number) ==> entry_quality(params.take(i - 1), number)
                    == Some(quality),
        decreases parts.len() - i,
    {
        let param = text::trim(parts[i]);
        let prefix = text::chars("q=");
        proof {
            assert(params.take(i as int).drop_last() =~= params.take(i - 1));
            assert(params.take(i as int).last() == all[i as int]);
        }
        i += 1;
        if text::starts_with(param, prefix.as_slice()) {
            let tail = slice_subrange(param, prefix.len(), param.len());
            assert(tail@ =~= param@.skip("q="@.len() as int));
            let digits = text::string_of(text::trim(tail));
            match parse_quality(digits.as_str()) {
                Some(q) => {
                    quality = q;
                },
                None => {
                    proof {
                        assert forall|number: spec_fn(Seq<char>) -> Option<u32>| #[trigger]
                            describes(*parse_quality, number) implies item_entry(
                            item@,
                            number,
                        ) is None by {
                            lemma_bad_quality_stays(params, number, i - 1);
                        }
                    }
                    return None;
                },
            }
        }
    }
    assert(params.take(i - 1) =~= params);
    Some(AcceptEncodingEntry { name: vstd::slice::slice_to_vec(name), quality })
}

proof fn lemma_bad_quality_stays(
    params: Seq<Seq<char>>,
    number: spec_fn(Seq<char>) -> Option<u32>,
    k: int,
)
    requires
        0 <= k <= params.len(),
        entry_quality(params.take(k), number) is None,
    ensures
        entry_quality(params, number) is None,
    decreases params.len(),
{
    if k < params.len() {
        assert(params.drop_last().take(k) =~= params.take(k));
        lemma_bad_quality_stays(params.drop_last(), number, k);
    } else {
        assert(params.take(k) =~= params);
    }
}

/// Determines the effective `q` value for `coding` per RFC 9110 §12.5.3:
/// an exact (case-insensitive) match wins; otherwise `*` applies; a coding
/// explicitly listed with `q=0` is rejected even if `*` would otherwise
/// allow it. Returns `None` when nothing addresses this coding at all.
fn acceptance_for(entries: &Vec<AcceptEncodingEntry>, coding: &str) -> (res: Option<u32>)
    ensures
        res == quality_for(entry_views(entries@), coding@),
{
    let coding = text::chars(coding);
    match find_named(entries, coding.as_slice()) {
        Some(quality) => Some(quality),
        None => {
            let mut star: Vec<char> = Vec::new();
            star.push('*');
            assert(star@ =~= seq!['*']);
            find_named(entries, star.as_slice())
        },
    }
}

fn find_named(entries: &Vec<AcceptEncodingEntry>, coding: &[char]) -> (res: Option<u32>)
    ensures
        res == named_quality(entry_views(entries@), coding@),
{
    let ghost views = entry_views(entries@);
    let mut i: usize = 0;
    assert(views.skip(0) =~= views);
    while i < entries.len()
        invariant
            0 <= i <= entries.len(),
            views == entry_views(entries@),
            named_quality(views, coding@) == named_quality(views.skip(i as int), coding@),
        decreases entries.len() - i,
    {
        proof {
            assert(views.skip(i as int)[0] == views[i as int]);
            assert(views.skip(i as int).skip(1) =~= views.skip(i + 1));
        }
        if text::same_ignoring_case(entries[i].name.as_slice(), coding) {
            return Some(entries[i].quality);
        }
        i += 1;
    }
    None
}

proof fn lemma_scored_is_acceptable(
    entries: Seq<Entry>,
    order: Seq<(Seq<char>, Seq<char>)>,
    count: nat,
)
    requires
        count <= order.len() <= usize::MAX,
    ensures
        forall|j: int|
            0 <= j < scored(entries, order, count).len() ==> {
                let s = #[trigger] scored(entries, order, count)[j];
                s.1 < count && quality_for(entries, order[s.1 as int].1) == Some(s.0)
                    && is_acceptable(Some(s.0))
            },
    decreases count,
{
    if count > 0 {
        lemma_scored_is_acceptable(entries, order, (count - 1) as nat);
        let before = scored(entries, order, (count - 1) as nat);
        let after = scored(entries, order, count);
        assert forall|j: int| 0 <= j < after.len() implies {
            let s = #[trigger] after[j];
            s.1 < count && quality_for(entries, order[s.1 as int].1) == Some(s.0)
                && is_acceptable(Some(s.0))
        } by {
            if j < before.len() {
                assert(after[j] == before[j]);
            }
        }
    }
}

/// Every encoding in a ranking is one of the server's that the client accepts
/// with the quality that it is ranked by, and the ranking descends by quality;
/// of two with the same quality the one that the server prefers comes first.
pub proof fn law_ranking_follows_the_client_then_the_server(
    entries: Seq<Entry>,
    order: Seq<(Seq<char>, Seq<char>)>,
)
    requires
        order.len() <= usize::MAX,
    ensures
        ({
            let ranking = scored(entries, order, order.len()).sort_by(preferred());
            &&& forall|i: int|
                0 <= i < ranking.len() ==> {
                    let s = #[trigger] ranking[i];
                    s.1 < order.len() && quality_for(entries, order[s.1 as int].1) == Some(s.0)
                        && is_acceptable(Some(s.0))
                }
            &&& forall|i: int, j: int|
                0 <= i < j < ranking.len() ==> (#[trigger] ranking[i]).0 > (
                #[trigger] ranking[j]).0 || (ranking[i].0 == ranking[j].0 && ranking[i].1
                    <= ranking[j].1)
        }),
{
    let all = scored(entries, order, order.len());
    let ranking = all.sort_by(preferred());
    lemma_preferred_is_total();
    all.lemma_sort_by_ensures(preferred());
    lemma_scored_is_acceptable(entries, order, order.len());
    assert forall|i: int| 0 <= i < ranking.len() implies {
        let s = #[trigger] ranking[i];
        s.1 < order.len() && quality_for(entries, order[s.1 as int].1) == Some(s.0)
            && is_acceptable(Some(s.0))
    } by {
        assert(ranking.contains(ranking[i]));
        assert(all.contains(ranking[i]));
    }
    assert forall|i: int, j: int| 0 <= i < j < ranking.len() implies (#[trigger] ranking[i]).0 > (
    #[trigger] ranking[j]).0 || (ranking[i].0 == ranking[j].0 && ranking[i].1 <= ranking[j].1) by {
        assert(preferred()(ranking[i], ranking[j]));
    }
}

/// A coding that the client lists with the quality zero is refused, whatever a
/// wildcard says.
pub proof fn law_listed_zero_overrides_the_wildcard(entries: Seq<Entry>, coding: Seq<char>)
    requires
        named_quality(entries, coding) == Some(0u32),
    ensures
        !is_acceptable(quality_for(entries, coding)),
{
}

/// Without an `Accept-Encoding` header, and with a malformed one, nothing is
/// served compressed.
pub proof fn law_no_usable_header_means_no_compression(
    accept_encoding: Option<Seq<char>>,
    order: Seq<(Seq<char>, Seq<char>)>,
    number: spec_fn(Seq<char>) -> Option<u32>,
)
    requires
        accept_encoding matches Some(header) ==> header_entries(
            text::pieces(header, ','),
            number,
        ) is None,
    ensures
        negotiated(accept_encoding, order, number).len() == 0,
{
}

/// Whether an item of the header is more than white space.
pub open spec fn is_filled() -> spec_fn(Seq<char>) -> bool {
    |item: Seq<char>| text::trimmed(item).len() > 0
}

/// Every item of the header counts that is more than white space: the entries
/// are those of these items, one for each, in their order. They are missing
/// exactly if one of the items is malformed.
pub proof fn law_every_item_of_the_header_counts(
    items: Seq<Seq<char>>,
    number: spec_fn(Seq<char>) -> Option<u32>,
)
    ensures
        header_entries(items, number) is None <==> exists|k: int|
            0 <= k < items.len() && is_filled()(#[trigger] items[k]) && item_entry(
                text::trimmed(items[k]),
                number,
            ) is None,
        header_entries(items, number) matches Some(entries) ==> {
            &&& entries.len() == items.filter(is_filled()).len()
            &&& forall|k: int|
                0 <= k < items.len() && is_filled()(#[trigger] items[k]) ==> {
                    let place = items.take(k).filter(is_filled()).len() as int;
                    place < entries.len() && item_entry(text::trimmed(items[k]), number) == Some(
                        entries[place],
                    )
                }
        },
    decreases items.len(),
{
    reveal(Seq::filter);
    if items.len() > 0 {
        let rest = items.drop_last();
        law_every_item_of_the_header_counts(rest, number);
        let last = items.len() - 1;
        assert(items[last] == items.last());
        assert(items.take(last) =~= rest);
        assert forall|k: int| 0 <= k < last implies #[trigger] items[k] == rest[k] && items.take(k)
            == rest.take(k) by {
            assert(items.take(k) =~= rest.take(k));
        }
        if header_entries(rest, number) is None {
            let k = choose|k: int|
                0 <= k < rest.len() && is_filled()(#[trigger] rest[k]) && item_entry(
                    text::trimmed(rest[k]),
                    number,
                ) is None;
            assert(is_filled()(items[k]));
        } else if is_filled()(items[last]) && item_entry(text::trimmed(items[last]), number) is None {
            assert(header_entries(items, number) is None);
        } else {
            let before = header_entries(rest, number)->0;
            let entries = header_entries(items, number)->0;
            assert forall|k: int| 0 <= k < items.len() && is_filled()(#[trigger] items[k]) implies {
                let place = items.take(k).filter(is_filled()).len() as int;
                place < entries.len() && item_entry(text::trimmed(items[k]), number) == Some(
                    entries[place],
                )
            } by {
                if k < last {
                    assert(is_filled()(rest[k]));
                    assert(items.take(k) == rest.take(k));
                }
            }
        }
    }
}

/// An item without parameters names a coding with the quality 1. A parameter
/// behind an item replaces its quality if it is a `q=` and changes nothing
/// otherwise; a `q=` that is no number makes the item malformed.
pub proof fn law_parameters_refine_an_item(
    name: Seq<char>,
    item: Seq<char>,
    param: Seq<char>,
    number: spec_fn(Seq<char>) -> Option<u32>,
)
    requires
        !name.contains(';'),
        !param.contains(';'),
    ensures
        item_entry(name, number) == if text::trimmed(name).len() > 0 {
            Some(Entry { name: text::trimmed(name), quality: 0x3f80_0000 })
        } else {
            None
        },
        item_entry(item + seq![';'] + param, number) == match item_entry(item, number) {
            None => None,
            Some(entry) => match quality_text(param) {
                None => Some(entry),
                Some(digits) => match number(digits) {
                    None => None,
                    Some(quality) => Some(Entry { name: entry.name, quality }),
                },
            },
        },
{
    text::lemma_pieces_without_separator(name, ';');
    assert(seq![name].skip(1) =~= seq![]);
    text::law_splitting_cuts_at_every_separator(item, param, ';');
    let before = text::pieces(item, ';');
    let after = before.push(param);
    assert(after.skip(1).drop_last() =~= before.skip(1));
    assert(after.skip(1).last() == param);
    assert(after[0] == before[0]);
}

/// A `q=` parameter gives what follows, with white space around either taken
/// off; nothing else is one.
pub proof fn law_quality_follows_its_name(
    a: Seq<char>,
    b: Seq<char>,
    digits: Seq<char>,
    c: Seq<char>,
    param: Seq<char>,
)
    requires
        forall|i: int| 0 <= i < a.len() ==> text::is_white(#[trigger] a[i]),
        forall|i: int| 0 <= i < b.len() ==> text::is_white(#[trigger] b[i]),
        forall|i: int| 0 <= i < c.len() ==> text::is_white(#[trigger] c[i]),
        digits.len() > 0,
        !text::is_white(digits[0]),
        !text::is_white(digits.last()),
    ensures
        quality_text(a + seq!['q', '='] + b + digits + c) == Some(digits),
        quality_text(param) is Some <==> text::trimmed(param).len() >= 2 && text::trimmed(param)[0]
            == 'q' && text::trimmed(param)[1] == '=',
{
    reveal_strlit("q=");
    assert("q="@ =~= seq!['q', '=']);
    let middle = seq!['q', '='] + b + digits;
    text::law_trimming_ignores_surrounding_white_space(a, middle, c);
    assert(a + middle + c =~= a + seq!['q', '='] + b + digits + c);
    assert(middle.take(2) =~= seq!['q', '=']);
    let tail = middle.skip(2);
    text::law_trimming_ignores_surrounding_white_space(b, digits, Seq::<char>::empty());
    assert(b + digits + Seq::<char>::empty() =~= tail);
    let t = text::trimmed(param);
    if t.len() >= 2 && t[0] == 'q' && t[1] == '=' {
        assert(t.take(2) =~= seq!['q', '=']);
    }
    if text::has_prefix(t, "q="@) {
        assert(t.take(2)[0] == 'q' && t.take(2)[1] == '=');
    }
}

proof fn lemma_first_named(entries: Seq<Entry>, coding: Seq<char>, k: int)
    requires
        0 <= k <= entries.len(),
        k < entries.len() ==> text::lower_all(entries[k].name) == text::lower_all(coding),
        forall|i: int|
            0 <= i < k ==> text::lower_all((#[trigger] entries[i]).name) != text::lower_all(coding),
    ensures
        named_quality(entries, coding) == if k < entries.len() {
            Some(entries[k].quality)
        } else {
            None
        },
    decreases k,
{
    if k > 0 {
        assert(text::lower_all(entries[0].name) != text::lower_all(coding));
        let rest = entries.skip(1);
        assert forall|i: int| 0 <= i < k - 1 implies text::lower_all((#[trigger] rest[i]).name)
            != text::lower_all(coding) by {
            assert(rest[i] == entries[i + 1]);
        }
        lemma_first_named(rest, coding, k - 1);
    }
}

/// The quality of a coding is that of the first entry with its name, in any
/// ASCII case, and that of the first `*` where no entry has its name. `named`
/// and `star` are the places of these entries, or the number of entries where
/// there is none.
pub proof fn law_quality_is_that_of_the_first_match(
    entries: Seq<Entry>,
    coding: Seq<char>,
    named: int,
    star: int,
)
    requires
        0 <= named <= entries.len(),
        named < entries.len() ==> text::lower_all(entries[named].name) == text::lower_all(coding),
        forall|i: int|
            0 <= i < named ==> text::lower_all((#[trigger] entries[i]).name) != text::lower_all(
                coding,
            ),
        0 <= star <= entries.len(),
        star < entries.len() ==> entries[star].name == "*"@,
        forall|i: int| 0 <= i < star ==> (#[trigger] entries[i]).name != "*"@,
    ensures
        quality_for(entries, coding) == if named < entries.len() {
            Some(entries[named].quality)
        } else if star < entries.len() {
            Some(entries[star].quality)
        } else {
            None
        },
{
    lemma_first_named(entries, coding, named);
    reveal_strlit("*");
    let any = seq!['*'];
    assert("*"@ =~= any);
    assert(text::lower_all(any) =~= any);
    assert forall|i: int| 0 <= i < entries.len() implies (text::lower_all(
        (#[trigger] entries[i]).name,
    ) == any <==> entries[i].name == any) by {
        let name = entries[i].name;
        if text::lower_all(name) == any {
            assert(text::lower_all(name)[0] == '*');
            assert(name.len() == 1);
            assert(text::lower(name[0]) == '*');
            assert(name =~= any);
        }
    }
    lemma_first_named(entries, any, star);
}

/// A quality admits a coding exactly if it is the bit pattern of a number above
/// zero: neither zero, nor with the sign bit, nor that of no number.
pub proof fn law_positive_numbers_are_acceptable(quality: u32)
    ensures
        is_acceptable(Some(quality)) <==> quality != 0 && quality < 0x8000_0000 && (quality
            < 0x7f80_0000 || quality == 0x7f80_0000),
        !is_acceptable(None),
        is_acceptable(Some(0x3f80_0000u32)),
{
}

proof fn lemma_scored_is_complete(
    entries: Seq<Entry>,
    order: Seq<(Seq<char>, Seq<char>)>,
    count: nat,
    i: int,
)
    requires
        count <= order.len() <= usize::MAX,
        0 <= i < count,
        is_acceptable(quality_for(entries, order[i].1)),
    ensures
        scored(entries, order, count).contains(
            (quality_for(entries, order[i].1)->0, i as usize),
        ),
    decreases count,
{
    let all = scored(entries, order, count);
    let wanted = (quality_for(entries, order[i].1)->0, i as usize);
    if i == count - 1 {
        assert(all.last() == wanted);
    } else {
        let before = scored(entries, order, (count - 1) as nat);
        lemma_scored_is_complete(entries, order, (count - 1) as nat, i);
        let k = choose|k: int| 0 <= k < before.len() && before[k] == wanted;
        assert(all[k] == wanted);
    }
}

proof fn lemma_scored_len(entries: Seq<Entry>, order: Seq<(Seq<char>, Seq<char>)>, count: nat)
    requires
        count <= order.len(),
    ensures
        scored(entries, order, count).len() == order.take(count as int).filter(
            |e: (Seq<char>, Seq<char>)| is_acceptable(quality_for(entries, e.1)),
        ).len(),
    decreases count,
{
    reveal(Seq::filter);
    if count > 0 {
        lemma_scored_len(entries, order, (count - 1) as nat);
        let taken = order.take(count as int);
        assert(taken.drop_last() =~= order.take(count - 1));
        assert(taken.last() == order[count - 1]);
    }
}

/// Negotiation leaves out no encoding of the server's that the header admits
/// and adds none: an encoding is tried exactly if its coding is acceptable, and
/// there are as many as are acceptable. Of two, the one with the higher quality
/// is tried first, and with equal qualities the one that the server prefers.
pub proof fn law_negotiation_keeps_what_is_acceptable(
    header: Seq<char>,
    order: Seq<(Seq<char>, Seq<char>)>,
    number: spec_fn(Seq<char>) -> Option<u32>,
    a: int,
    b: int,
)
    requires
        order.len() <= usize::MAX,
        0 <= a <= b < order.len(),
        header_entries(text::pieces(header, ','), number) is Some,
    ensures
        ({
            let entries = header_entries(text::pieces(header, ','), number)->0;
            let tried = negotiated(Some(header), order, number);
            let (p, q) = (quality_for(entries, order[a].1), quality_for(entries, order[b].1));
            &&& is_acceptable(p) <==> tried.contains(order[a])
            &&& is_acceptable(q) <==> tried.contains(order[b])
            &&& tried.len() == order.filter(
                |e: (Seq<char>, Seq<char>)| is_acceptable(quality_for(entries, e.1)),
            ).len()
            &&& forall|i: int| 0 <= i < tried.len() ==> order.contains(#[trigger] tried[i])
            &&& a < b && is_acceptable(p) && is_acceptable(q) ==> exists|i: int, j: int|
                0 <= i < tried.len() && 0 <= j < tried.len() && #[trigger] tried[i] == order[a]
                    && #[trigger] tried[j] == order[b] && if p->0 >= q->0 {
                    i < j
                } else {
                    j < i
                }
        }),
{
    let entries = header_entries(text::pieces(header, ','), number)->0;
    let tried = negotiated(Some(header), order, number);
    let all = scored(entries, order, order.len());
    let ranking = all.sort_by(preferred());
    lemma_negotiated_one(header, order, number, a);
    lemma_negotiated_one(header, order, number, b);
    lemma_preferred_is_total();
    all.lemma_sort_by_ensures(preferred());
    lemma_scored_len(entries, order, order.len());
    assert(order.take(order.len() as int) =~= order);
    ranking.to_multiset_ensures();
    all.to_multiset_ensures();
    law_ranking_follows_the_client_then_the_server(entries, order);
    assert forall|i: int| 0 <= i < tried.len() implies order.contains(#[trigger] tried[i]) by {
        assert(tried[i] == order[ranking[i].1 as int]);
    }
    if a < b && is_acceptable(quality_for(entries, order[a].1)) && is_acceptable(
        quality_for(entries, order[b].1),
    ) {
        lemma_negotiated_in_order(header, order, number, a, b);
    }
}

proof fn lemma_negotiated_in_order(
    header: Seq<char>,
    order: Seq<(Seq<char>, Seq<char>)>,
    number: spec_fn(Seq<char>) -> Option<u32>,
    a: int,
    b: int,
)
    requires
        order.len() <= usize::MAX,
        0 <= a < b < order.len(),
        header_entries(text::pieces(header, ','), number) is Some,
        ({
            let entries = header_entries(text::pieces(header, ','), number)->0;
            is_acceptable(quality_for(entries, order[a].1)) && is_acceptable(
                quality_for(entries, order[b].1),
            )
        }),
    ensures
        ({
            let entries = header_entries(text::pieces(header, ','), number)->0;
            let tried = negotiated(Some(header), order, number);
            let (p, q) = (quality_for(entries, order[a].1), quality_for(entries, order[b].1));
            exists|i: int, j: int|
                0 <= i < tried.len() && 0 <= j < tried.len() && #[trigger] tried[i] == order[a]
                    && #[trigger] tried[j] == order[b] && if p->0 >= q->0 {
                    i < j
                } else {
                    j < i
                }
        }),
{
    let entries = header_entries(text::pieces(header, ','), number)->0;
    let tried = negotiated(Some(header), order, number);
    let all = scored(entries, order, order.len());
    let ranking = all.sort_by(preferred());
    let (p, q) = (quality_for(entries, order[a].1), quality_for(entries, order[b].1));
    lemma_negotiated_one(header, order, number, a);
    lemma_negotiated_one(header, order, number, b);
    lemma_preferred_is_total();
    all.lemma_sort_by_ensures(preferred());
    let i = choose|i: int| 0 <= i < ranking.len() && ranking[i] == (p->0, a as usize);
    let j = choose|j: int| 0 <= j < ranking.len() && ranking[j] == (q->0, b as usize);
    assert(tried[i] == order[a] && tried[j] == order[b]);
    if i < j {
        assert(preferred()(ranking[i], ranking[j]));
    } else if j < i {
        assert(preferred()(ranking[j], ranking[i]));
    }
}

proof fn lemma_negotiated_one(
    header: Seq<char>,
    order: Seq<(Seq<char>, Seq<char>)>,
    number: spec_fn(Seq<char>) -> Option<u32>,
    a: int,
)
    requires
        order.len() <= usize::MAX,
        0 <= a < order.len(),
        header_entries(text::pieces(header, ','), number) is Some,
    ensures
        ({
            let entries = header_entries(text::pieces(header, ','), number)->0;
            let quality = quality_for(entries, order[a].1);
            let ranking = scored(entries, order, order.len()).sort_by(preferred());
            &&& is_acceptable(quality) <==> negotiated(Some(header), order, number).contains(
                order[a],
            )
            &&& is_acceptable(quality) ==> ranking.contains((quality->0, a as usize))
        }),
{
    let entries = header_entries(text::pieces(header, ','), number)->0;
    let tried = negotiated(Some(header), order, number);
    let quality = quality_for(entries, order[a].1);
    let all = scored(entries, order, order.len());
    let ranking = all.sort_by(preferred());
    lemma_preferred_is_total();
    all.lemma_sort_by_ensures(preferred());
    law_ranking_follows_the_client_then_the_server(entries, order);
    if is_acceptable(quality) {
        lemma_scored_is_complete(entries, order, order.len(), a);
        let wanted = (quality->0, a as usize);
        assert(ranking.contains(wanted)) by {
            broadcast use vstd::seq_lib::group_to_multiset_ensures;

            assert(all.to_multiset().contains(wanted));
        }
        let k = choose|k: int| 0 <= k < ranking.len() && ranking[k] == wanted;
        assert(tried[k] == order[a]);
    }
    if tried.contains(order[a]) {
        let k = choose|k: int| 0 <= k < tried.len() && tried[k] == order[a];
        let s = ranking[k];
        assert(tried[k] == order[s.1 as int]);
    }
}

/// A coding that some item of the header names, as the first to do so and with
/// a quality above zero, is served compressed where the server has it, wherever
/// in the header the item stands.
pub proof fn law_named_codings_are_served(
    header: Seq<char>,
    order: Seq<(Seq<char>, Seq<char>)>,
    number: spec_fn(Seq<char>) -> Option<u32>,
    k: int,
    offered: int,
)
    requires
        order.len() <= usize::MAX,
        0 <= offered < order.len(),
        ({
            let items = text::pieces(header, ',');
            let coding = text::lower_all(order[offered].1);
            &&& header_entries(items, number) is Some
            &&& 0 <= k < items.len()
            &&& is_filled()(items[k])
            &&& item_entry(text::trimmed(items[k]), number) matches Some(entry)
            &&& text::lower_all(entry.name) == coding
            &&& is_acceptable(Some(entry.quality))
            &&& forall|i: int|
                0 <= i < k && is_filled()(#[trigger] items[i]) ==> text::lower_all(
                    item_entry(text::trimmed(items[i]), number)->0.name,
                ) != coding
        }),
    ensures
        negotiated(Some(header), order, number).contains(order[offered]),
{
    let items = text::pieces(header, ',');
    let coding = order[offered].1;
    let entries = header_entries(items, number)->0;
    law_every_item_of_the_header_counts(items, number);
    let place = items.take(k).filter(is_filled()).len() as int;
    assert(is_filled()(items[k]));
    assert forall|n: int| 0 <= n < place implies text::lower_all((#[trigger] entries[n]).name)
        != text::lower_all(coding) by {
        lemma_entry_has_an_item(items, k, n);
        let i = choose|i: int|
            0 <= i < k && is_filled()(#[trigger] items[i]) && items.take(i).filter(
                is_filled(),
            ).len() == n;
        assert(is_filled()(items[i]));
    }
    lemma_first_named(entries, coding, place);
    lemma_negotiated_one(header, order, number, offered);
}

proof fn lemma_entry_has_an_item(items: Seq<Seq<char>>, k: int, n: int)
    requires
        0 <= k <= items.len(),
        0 <= n < items.take(k).filter(is_filled()).len(),
    ensures
        exists|i: int|
            0 <= i < k && is_filled()(#[trigger] items[i]) && items.take(i).filter(
                is_filled(),
            ).len() == n,
    decreases k,
{
    reveal(Seq::filter);
    let taken = items.take(k);
    assert(taken.drop_last() =~= items.take(k - 1));
    assert(taken.last() == items[k - 1]);
    let before = items.take(k - 1).filter(is_filled()).len();
    if n < before {
        lemma_entry_has_an_item(items, k - 1, n);
        let i = choose|i: int|
            0 <= i < k - 1 && is_filled()(#[trigger] items[i]) && items.take(i).filter(
                is_filled(),
            ).len() == n;
        assert(is_filled()(items[i]));
    } else {
        assert(is_filled()(items[k - 1]));
    }
}

} // verus!
