//! Deterministic HTML directory listing rendering.

use crate::path;
use crate::text;
use crate::validators;
use crate::validators::format_http_date;
use vstd::prelude::*;
use vstd::relations::{sorted_by, total_ordering};
use vstd::utf8::encode_utf8;

verus! {

/// One entry in a directory listing.
pub struct DirEntry {
    pub name: String,
    pub is_dir: bool,
    pub size: u64,
    pub mtime_unix: i64,
}

/// What a [`DirEntry`] says.
pub struct Entry {
    pub name: Seq<char>,
    pub is_dir: bool,
    pub size: u64,
    pub mtime_unix: i64,
}

impl View for DirEntry {
    type V = Entry;

    open spec fn view(&self) -> Entry {
        Entry {
            name: self.name@,
            is_dir: self.is_dir,
            size: self.size,
            mtime_unix: self.mtime_unix,
        }
    }
}

/// A list of directory entries as what they say.
pub open spec fn entry_views(entries: Seq<DirEntry>) -> Seq<Entry> {
    entries.map_values(|e: DirEntry| e@)
}

/// The Unicode lower-case form of a text, as `str::to_lowercase` gives it.
pub uninterp spec fn lowercase(s: Seq<char>) -> Seq<char>;

/// `str::to_lowercase`. It is a function of the text, named by [`lowercase`].
#[verifier::external_body]
fn to_lowercase(s: &str) -> (res: String)
    ensures
        res@ == lowercase(s@),
{
    s.to_lowercase()
}

/// `c` as HTML text.
pub open spec fn escaped_char(c: char) -> Seq<char> {
    if c == '&' {
        "&amp;"@
    } else if c == '<' {
        "&lt;"@
    } else if c == '>' {
        "&gt;"@
    } else {
        seq![c]
    }
}

/// `s` as HTML text.
pub open spec fn escaped(s: Seq<char>) -> Seq<char>
    decreases s.len(),
{
    if s.len() == 0 {
        seq![]
    } else {
        escaped_char(s[0]) + escaped(s.skip(1))
    }
}

/// `html_escape::encode_text`: replaces `&`, `<` and `>` by their entities and
/// leaves everything else as it is.
#[verifier::external_body]
fn encode_text(s: &str) -> (res: String)
    ensures
        res@ == escaped(s@),
{
    html_escape::encode_text(s).into_owned()
}

/// Whether a byte stands for itself in an `href` path segment: ASCII letters
/// and digits, and a few characters that don't need escaping and appear
/// commonly in filenames.
pub open spec fn is_unreserved(b: u8) -> bool {
    ||| 48 <= b <= 57
    ||| 65 <= b <= 90
    ||| 97 <= b <= 122
    ||| b == 45
    ||| b == 46
    ||| b == 95
    ||| b == 126
}

/// The upper-case hexadecimal digit for `d`.
pub open spec fn upper_hex(d: int) -> char {
    if d < 10 {
        (d + 48) as char
    } else {
        (d + 55) as char
    }
}

/// `b` in an `href` path segment.
pub open spec fn percent_encoded_byte(b: u8) -> Seq<char> {
    if is_unreserved(b) {
        seq![b as char]
    } else {
        seq!['%', upper_hex(b as int / 16), upper_hex(b as int % 16)]
    }
}

/// `bytes` in an `href` path segment.
pub open spec fn percent_encoded(bytes: Seq<u8>) -> Seq<char>
    decreases bytes.len(),
{
    if bytes.len() == 0 {
        seq![]
    } else {
        percent_encoded_byte(bytes[0]) + percent_encoded(bytes.skip(1))
    }
}

/// The `href` path segment for a file name.
pub open spec fn href_segment(name: Seq<char>) -> Seq<char> {
    percent_encoded(encode_utf8(name))
}

/// The quotient of `n` and `d`, rounded to the nearest integer, and to the
/// even one of two that are equally near.
pub open spec fn round_half_even(n: nat, d: nat) -> nat {
    let quotient = n / d;
    let rest = n % d;
    if 2 * rest < d || (2 * rest == d && quotient % 2 == 0) {
        quotient
    } else {
        quotient + 1
    }
}

/// The distance between neighbouring double-precision numbers around `n`, or 1
/// where every integer is one.
pub open spec fn double_spacing(n: nat) -> nat
    decreases n,
{
    if n < 0x20_0000_0000_0000 {
        1
    } else {
        2 * double_spacing(n / 2)
    }
}

/// The double-precision number nearest to `n`.
pub open spec fn nearest_double(n: nat) -> nat {
    round_half_even(n, double_spacing(n)) * double_spacing(n)
}

/// A number of tenths with one decimal place.
pub open spec fn tenths_text(tenths: nat) -> Seq<char> {
    text::decimal(tenths / 10) + "."@ + text::decimal(tenths % 10)
}

/// A byte count for people to read.
pub open spec fn human_size(size: u64) -> Seq<char> {
    let value = nearest_double(size as nat);
    if size < 1024 {
        text::decimal(size as nat) + " B"@
    } else if value < 0x10_0000 {
        tenths_text(round_half_even(10 * value, 0x400)) + " KiB"@
    } else if value < 0x4000_0000 {
        tenths_text(round_half_even(10 * value, 0x10_0000)) + " MiB"@
    } else if value < 0x100_0000_0000 {
        tenths_text(round_half_even(10 * value, 0x4000_0000)) + " GiB"@
    } else {
        tenths_text(round_half_even(10 * value, 0x100_0000_0000)) + " TiB"@
    }
}

/// The table row of an entry, given the text of its modification time.
pub open spec fn row_text(entry: Entry, modified: Seq<char>) -> Seq<char> {
    let slash = if entry.is_dir {
        "/"@
    } else {
        ""@
    };
    "<tr><td><a href=\""@ + href_segment(entry.name) + slash + "\">"@ + escaped(entry.name)
        + slash + "</a></td><td>"@ + (if entry.is_dir {
        ""@
    } else {
        human_size(entry.size)
    }) + "</td><td>"@ + modified + "</td></tr>\n"@
}

/// The table rows of the entries at the given positions, in order.
pub open spec fn rows_text(entries: Seq<Entry>, order: Seq<usize>) -> Seq<char>
    decreases order.len(),
{
    if order.len() == 0 {
        seq![]
    } else {
        let entry = entries[order.last() as int];
        rows_text(entries, order.drop_last()) + row_text(
            entry,
            validators::http_date_text(entry.mtime_unix as int),
        )
    }
}

/// Everything of the page before the rows of the entries.
pub open spec fn page_head(url_path: Seq<char>, at_root: bool) -> Seq<char> {
    "<!DOCTYPE html>\n<html>\n<head>\n<meta charset=\"utf-8\">\n<title>Index of "@ + escaped(
        url_path,
    ) + "</title>\n</head>\n<body>\n<h1>Index of "@ + escaped(url_path)
        + "</h1>\n<table>\n<tr><th>Name</th><th>Size</th><th>Last modified</th></tr>\n"@ + (
    if at_root {
        ""@
    } else {
        "<tr><td><a href=\"../\">../</a></td><td></td><td></td></tr>\n"@
    })
}

/// Everything of the page after the rows of the entries.
pub open spec fn page_tail() -> Seq<char> {
    "</table>\n</body>\n</html>\n"@
}

/// Lexicographic order of character sequences.
pub open spec fn chars_le(a: Seq<char>, b: Seq<char>) -> bool
    decreases a.len(),
{
    if a.len() == 0 {
        true
    } else if b.len() == 0 {
        false
    } else if a[0] != b[0] {
        a[0] < b[0]
    } else {
        chars_le(a.skip(1), b.skip(1))
    }
}

/// Whether entry `i` is listed no later than entry `j`: directories first, then
/// by case-folded name, then by exact name, then as given.
pub open spec fn listed_before(
    entries: Seq<Entry>,
    folded: Seq<Seq<char>>,
    i: usize,
    j: usize,
) -> bool {
    let a = entries[i as int];
    let b = entries[j as int];
    if a.is_dir != b.is_dir {
        a.is_dir
    } else if folded[i as int] != folded[j as int] {
        chars_le(folded[i as int], folded[j as int])
    } else if a.name != b.name {
        chars_le(a.name, b.name)
    } else {
        i <= j
    }
}

/// The relation of [`listed_before`].
pub open spec fn listing_relation(
    entries: Seq<Entry>,
    folded: Seq<Seq<char>>,
) -> spec_fn(usize, usize) -> bool {
    |i: usize, j: usize| listed_before(entries, folded, i, j)
}

/// The first `count` positions.
pub open spec fn positions(count: nat) -> Seq<usize> {
    Seq::new(count, |i: int| i as usize)
}

/// The order in which entries are listed, given their case-folded names.
pub open spec fn listing_positions(entries: Seq<Entry>, folded: Seq<Seq<char>>) -> Seq<usize> {
    positions(entries.len()).sort_by(listing_relation(entries, folded))
}

/// The case-folded names of the entries.
pub open spec fn folded_names(entries: Seq<Entry>) -> Seq<Seq<char>> {
    entries.map_values(|e: Entry| lowercase(e.name))
}

/// The page that lists the entries.
pub open spec fn listing_page(url_path: Seq<char>, at_root: bool, entries: Seq<Entry>) -> Seq<
    char,
> {
    page_head(url_path, at_root) + rows_text(
        entries,
        listing_positions(entries, folded_names(entries)),
    ) + page_tail()
}

proof fn lemma_chars_le_total(a: Seq<char>, b: Seq<char>)
    ensures
        chars_le(a, b) || chars_le(b, a),
        chars_le(a, b) && chars_le(b, a) ==> a == b,
    decreases a.len(),
{
    if a.len() > 0 && b.len() > 0 {
        lemma_chars_le_total(a.skip(1), b.skip(1));
        if a[0] == b[0] && a.skip(1) == b.skip(1) {
            assert(a =~= seq![a[0]] + a.skip(1));
            assert(b =~= seq![b[0]] + b.skip(1));
        }
    } else if a.len() == 0 && b.len() == 0 {
        assert(a =~= b);
    }
}

proof fn lemma_chars_le_transitive(a: Seq<char>, b: Seq<char>, c: Seq<char>)
    requires
        chars_le(a, b),
        chars_le(b, c),
    ensures
        chars_le(a, c),
    decreases a.len(),
{
    if a.len() > 0 && a[0] == b[0] && b[0] == c[0] {
        lemma_chars_le_transitive(a.skip(1), b.skip(1), c.skip(1));
    }
}

proof fn lemma_listing_relation_is_total(entries: Seq<Entry>, folded: Seq<Seq<char>>)
    ensures
        total_ordering(listing_relation(entries, folded)),
{
    let r = listing_relation(entries, folded);
    assert forall|i: usize, j: usize| #[trigger] r(i, j) || r(j, i) by {
        lemma_chars_le_total(folded[i as int], folded[j as int]);
        lemma_chars_le_total(entries[i as int].name, entries[j as int].name);
    }
    assert forall|i: usize, j: usize| #[trigger] r(i, j) && #[trigger] r(j, i) implies i == j by {
        lemma_chars_le_total(folded[i as int], folded[j as int]);
        lemma_chars_le_total(entries[i as int].name, entries[j as int].name);
    }
    assert forall|i: usize, j: usize, k: usize| #[trigger] r(i, j) && #[trigger] r(j, k) implies r(
        i,
        k,
    ) by {
        let (a, b, c) = (folded[i as int], folded[j as int], folded[k as int]);
        let (x, y, z) = (
            entries[i as int].name,
            entries[j as int].name,
            entries[k as int].name,
        );
        if chars_le(a, b) && chars_le(b, c) {
            lemma_chars_le_transitive(a, b, c);
            lemma_chars_le_total(a, b);
        }
        if chars_le(x, y) && chars_le(y, z) {
            lemma_chars_le_transitive(x, y, z);
            lemma_chars_le_total(x, y);
        }
    }
}

/// Compares two runs of characters.
fn is_chars_le(a: &[char], b: &[char]) -> (res: bool)
    ensures
        res == chars_le(a@, b@),
{
    let mut i: usize = 0;
    assert(a@.skip(0) =~= a@);
    assert(b@.skip(0) =~= b@);
    while i < a.len()
        invariant
            0 <= i <= a.len(),
            i <= b.len(),
            chars_le(a@, b@) == chars_le(a@.skip(i as int), b@.skip(i as int)),
        decreases a.len() - i,
    {
        if i >= b.len() {
            return false;
        }
        let (x, y) = (a[i], b[i]);
        proof {
            assert(a@.skip(i as int)[0] == x);
            assert(b@.skip(i as int)[0] == y);
            assert(a@.skip(i as int).skip(1) =~= a@.skip(i + 1));
            assert(b@.skip(i as int).skip(1) =~= b@.skip(i + 1));
        }
        if x != y {
            return x < y;
        }
        i += 1;
    }
    true
}

/// A text with its characters laid out for comparison.
pub open spec fn char_views(texts: Seq<Vec<char>>) -> Seq<Seq<char>> {
    texts.map_values(|t: Vec<char>| t@)
}

fn is_listed_before(
    entries: &[DirEntry],
    folded: &Vec<Vec<char>>,
    i: usize,
    j: usize,
) -> (res: bool)
    requires
        folded@.len() == entries@.len(),
        i < entries@.len(),
        j < entries@.len(),
    ensures
        res == listed_before(entry_views(entries@), char_views(folded@), i, j),
{
    assert(entry_views(entries@)[i as int] == entries@[i as int]@);
    assert(entry_views(entries@)[j as int] == entries@[j as int]@);
    assert(char_views(folded@)[i as int] == folded@[i as int]@);
    assert(char_views(folded@)[j as int] == folded@[j as int]@);
    if entries[i].is_dir != entries[j].is_dir {
        return entries[i].is_dir;
    }
    if !text::same(folded[i].as_slice(), folded[j].as_slice()) {
        return is_chars_le(folded[i].as_slice(), folded[j].as_slice());
    }
    let a = text::chars(entries[i].name.as_str());
    let b = text::chars(entries[j].name.as_str());
    if !text::same(a.as_slice(), b.as_slice()) {
        return is_chars_le(a.as_slice(), b.as_slice());
    }
    i <= j
}

/// The order in which entries are listed, given their case-folded names.
///
/// Directories first, then case-insensitive alphabetical, with a
/// stable tie-break on the exact name so identically-cased-but-
/// distinct entries (e.g. differing only by non-ASCII case folding)
/// still sort deterministically.
pub fn listing_order(entries: &[DirEntry], folded: &Vec<Vec<char>>) -> (res: Vec<usize>)
    requires
        folded@.len() == entries@.len(),
    ensures
        res@ == listing_positions(entry_views(entries@), char_views(folded@)),
        res@.len() == entries@.len(),
        forall|k: int| 0 <= k < res@.len() ==> #[trigger] res@[k] < entries@.len(),
{
    let ghost views = char_views(folded@);
    let ghost relation = listing_relation(entry_views(entries@), views);
    let mut order: Vec<usize> = Vec::new();
    let mut i: usize = 0;
    proof {
        lemma_listing_relation_is_total(entry_views(entries@), views);
        assert(order@ =~= positions(0));
    }
    while i < entries.len()
        invariant
            0 <= i <= entries.len(),
            folded@.len() == entries@.len(),
            views == char_views(folded@),
            relation == listing_relation(entry_views(entries@), views),
            total_ordering(relation),
            sorted_by(order@, relation),
            order@.len() == i,
            order@.to_multiset() == positions(i as nat).to_multiset(),
            forall|k: int| 0 <= k < order@.len() ==> #[trigger] order@[k] < entries@.len(),
        decreases entries.len() - i,
    {
        let ghost before = order@;
        let mut at: usize = 0;
        while at < order.len() && is_listed_before(entries, folded, order[at], i)
            invariant
                0 <= at <= order.len(),
                order@ == before,
                i < entries@.len(),
                folded@.len() == entries@.len(),
                views == char_views(folded@),
                relation == listing_relation(entry_views(entries@), views),
                forall|k: int| 0 <= k < before.len() ==> #[trigger] before[k] < entries@.len(),
                forall|k: int| 0 <= k < at ==> #[trigger] relation(before[k], i),
            ensures
                at < order.len() ==> !relation(before[at as int], i),
            decreases order.len() - at,
        {
            at += 1;
        }
        order.insert(at, i);
        proof {
            lemma_insert_keeps_order(before, at as int, i, relation);
            assert(positions((i + 1) as nat) =~= positions(i as nat).push(i));
            assert(positions((i + 1) as nat).to_multiset() =~= positions(
                i as nat,
            ).to_multiset().insert(i)) by {
                broadcast use vstd::seq_lib::group_to_multiset_ensures;

            }
        }
        i += 1;
    }
    proof {
        let all = positions(entries@.len());
        all.lemma_sort_by_ensures(relation);
        vstd::seq_lib::lemma_sorted_unique(order@, all.sort_by(relation), relation);
    }
    order
}

proof fn lemma_insert_keeps_order(
    before: Seq<usize>,
    at: int,
    new: usize,
    r: spec_fn(usize, usize) -> bool,
)
    requires
        total_ordering(r),
        sorted_by(before, r),
        0 <= at <= before.len(),
        forall|k: int| 0 <= k < at ==> #[trigger] r(before[k], new),
        at < before.len() ==> !r(before[at], new),
    ensures
        sorted_by(before.insert(at, new), r),
        before.insert(at, new).to_multiset() == before.to_multiset().insert(new),
{
    let after = before.insert(at, new);
    assert(after.to_multiset() =~= before.to_multiset().insert(new)) by {
        broadcast use vstd::seq_lib::group_to_multiset_ensures;

    }
    if at < before.len() {
        assert(r(new, before[at]) || r(before[at], new));
    }
    assert forall|i: int, j: int| 0 <= i < j < after.len() implies #[trigger] r(
        after[i],
        after[j],
    ) by {
        if j < at {
            assert(r(before[i], before[j]));
        } else if j == at {
            assert(r(before[i], new));
        } else if i < at {
            assert(r(before[i], before[j - 1]));
        } else if i == at {
            if j - 1 > at {
                assert(r(before[at], before[j - 1]));
                assert(r(new, before[at]));
                assert(r(new, before[j - 1]));
            }
        } else {
            assert(r(before[i - 1], before[j - 1]));
        }
    }
}

/// Whether every entry's modification time has an HTTP date.
pub open spec fn dates_valid(entries: Seq<Entry>) -> bool {
    forall|i: int|
        0 <= i < entries.len() ==> validators::has_http_date((#[trigger] entries[i]).mtime_unix)
}

/// Renders a directory listing as a small, dependency-free HTML page.
/// `url_path` is the request path the listing is served for (the page
/// heading). `at_root` must be true when this directory is the root of the
/// served tree; the `../` parent link is emitted only when it is false.
pub fn render_listing(url_path: &str, at_root: bool, entries: &[DirEntry]) -> (res: String)
    requires
        dates_valid(entry_views(entries@)),
    ensures
        res@ == listing_page(url_path@, at_root, entry_views(entries@)),
{
    let ghost views = entry_views(entries@);
    let mut folded: Vec<Vec<char>> = Vec::new();
    let mut i: usize = 0;
    while i < entries.len()
        invariant
            0 <= i <= entries.len(),
            views == entry_views(entries@),
            char_views(folded@) == folded_names(views).take(i as int),
        decreases entries.len() - i,
    {
        let ghost before = char_views(folded@);
        let lower = to_lowercase(entries[i].name.as_str());
        let letters = text::chars(lower.as_str());
        folded.push(letters);
        i += 1;
        proof {
            assert(char_views(folded@) =~= before.push(letters@));
            assert(folded_names(views).take(i as int) =~= before.push(letters@));
        }
    }
    assert(folded_names(views).take(i as int) =~= folded_names(views));
    assert(char_views(folded@).len() == folded@.len());
    let order = listing_order(entries, &folded);

    let mut html =
        "<!DOCTYPE html>\n<html>\n<head>\n<meta charset=\"utf-8\">\n<title>Index of ".to_owned();
    let heading = encode_text(url_path);
    html.append(heading.as_str());
    html.append("</title>\n</head>\n<body>\n<h1>Index of ");
    html.append(heading.as_str());
    html.append("</h1>\n<table>\n<tr><th>Name</th><th>Size</th><th>Last modified</th></tr>\n");
    if !at_root {
        html.append("<tr><td><a href=\"../\">../</a></td><td></td><td></td></tr>\n");
    }
    let ghost head = page_head(url_path@, at_root);
    proof {
        reveal_strlit("");
        assert(html@ =~= head);
    }
    let mut k: usize = 0;
    assert(order@.take(0) =~= seq![]);
    assert(head + rows_text(views, order@.take(0)) =~= head);
    while k < order.len()
        invariant
            0 <= k <= order.len(),
            views == entry_views(entries@),
            dates_valid(views),
            forall|j: int| 0 <= j < order@.len() ==> #[trigger] order@[j] < entries@.len(),
            html@ == head + rows_text(views, order@.take(k as int)),
        decreases order.len() - k,
    {
        let ghost before = html@;
        let entry = &entries[order[k]];
        assert(views[order@[k as int] as int] == entry@);
        let modified = format_http_date(entry.mtime_unix);
        let row = render_row(entry, modified.as_str());
        html.append(row.as_str());
        proof {
            let taken = order@.take(k + 1);
            assert(taken.drop_last() =~= order@.take(k as int));
            assert(taken.last() == order@[k as int]);
            assert(html@ =~= head + rows_text(views, taken));
        }
        k += 1;
    }
    assert(order@.take(k as int) =~= order@);
    html.append("</table>\n</body>\n</html>\n");
    html
}

/// Renders the table row of an entry, given the text of its modification time.
pub fn render_row(entry: &DirEntry, modified: &str) -> (res: String)
    ensures
        res@ == row_text(entry@, modified@),
{
    let slash = if entry.is_dir {
        "/"
    } else {
        ""
    };
    let size_cell = if entry.is_dir {
        "".to_owned()
    } else {
        humanize_size(entry.size)
    };
    let mut row = "<tr><td><a href=\"".to_owned();
    row.append(percent_encode_path_segment(entry.name.as_str()).as_str());
    row.append(slash);
    row.append("\">");
    row.append(encode_text(entry.name.as_str()).as_str());
    row.append(slash);
    row.append("</a></td><td>");
    row.append(size_cell.as_str());
    row.append("</td><td>");
    row.append(modified);
    row.append("</td></tr>\n");
    row
}

/// Percent-encodes a filename for use as an `href` path segment.
pub fn percent_encode_path_segment(name: &str) -> (res: String)
    ensures
        res@ == href_segment(name@),
{
    let bytes = name.as_bytes();
    let mut out = String::new();
    let mut i: usize = 0;
    assert(bytes@.skip(0) =~= bytes@);
    assert(out@ + percent_encoded(bytes@.skip(0)) =~= percent_encoded(bytes@));
    while i < bytes.len()
        invariant
            0 <= i <= bytes.len(),
            out@ + percent_encoded(bytes@.skip(i as int)) == percent_encoded(bytes@),
        decreases bytes.len() - i,
    {
        let b: u8 = bytes[i];
        let ghost before = out@;
        if (48 <= b && b <= 57) || (65 <= b && b <= 90) || (97 <= b && b <= 122) || b == 45 || b
            == 46 || b == 95 || b == 126 {
            out.push(b as char);
        } else {
            out.push('%');
            out.push(upper_hex_digit(b / 16));
            out.push(upper_hex_digit(b % 16));
        }
        proof {
            let rest = bytes@.skip(i as int);
            assert(rest[0] == b);
            assert(rest.skip(1) =~= bytes@.skip(i + 1));
            assert(out@ =~= before + percent_encoded_byte(b));
            assert(out@ + percent_encoded(bytes@.skip(i + 1)) =~= before + percent_encoded(rest));
        }
        i += 1;
    }
    assert(bytes@.skip(i as int) =~= seq![]);
    assert(out@ =~= percent_encoded(bytes@));
    out
}

fn upper_hex_digit(d: u8) -> (res: char)
    requires
        d < 16,
    ensures
        res == upper_hex(d as int),
{
    if d < 10 {
        (d + 48) as char
    } else {
        (d + 55) as char
    }
}

/// Formats a byte count using binary (1024-based) units with one decimal
/// place, e.g. `1.5 KiB`. Byte counts under 1 KiB are shown as a bare
/// integer, e.g. `512 B`.
pub fn humanize_size(size: u64) -> (res: String)
    ensures
        res@ == human_size(size),
{
    if size < 1024 {
        let mut out = text::format_decimal(size);
        out.append(" B");
        return out;
    }
    let value: u128 = round_to_double(size);
    if value < 0x10_0000 {
        format_tenths(value, 0x400, " KiB")
    } else if value < 0x4000_0000 {
        format_tenths(value, 0x10_0000, " MiB")
    } else if value < 0x100_0000_0000 {
        format_tenths(value, 0x4000_0000, " GiB")
    } else {
        format_tenths(value, 0x100_0000_0000, " TiB")
    }
}

fn divide_half_even(n: u128, d: u128) -> (res: u128)
    requires
        0 < d <= 0x100_0000_0000,
        n < 0x1_0000_0000_0000_0000_0000,
    ensures
        res == round_half_even(n as nat, d as nat),
        res <= n / d + 1,
{
    let quotient: u128 = n / d;
    let rest: u128 = n % d;
    proof {
        assert(rest < d && quotient <= n) by (nonlinear_arith)
            requires
                rest == n % d,
                quotient == n / d,
                d > 0,
        ;
    }
    if 2 * rest < d || (2 * rest == d && quotient % 2 == 0) {
        quotient
    } else {
        quotient + 1
    }
}

proof fn lemma_double_spacing_bounds(n: nat)
    requires
        n < 0x1_0000_0000_0000_0000,
    ensures
        1 <= double_spacing(n) <= 2048,
{
    reveal_with_fuel(double_spacing, 13);
}

/// The double-precision number nearest to `size`.
fn round_to_double(size: u64) -> (res: u128)
    ensures
        res == nearest_double(size as nat),
        res < 0x2_0000_0000_0000_0000,
{
    let mut spacing: u128 = 1;
    let mut scaled: u64 = size;
    proof {
        lemma_double_spacing_bounds(size as nat);
    }
    while scaled >= 0x20_0000_0000_0000
        invariant
            spacing * double_spacing(scaled as nat) == double_spacing(size as nat),
            1 <= double_spacing(size as nat) <= 2048,
            1 <= spacing <= 2048,
        decreases scaled,
    {
        proof {
            let s = double_spacing((scaled / 2) as nat);
            lemma_double_spacing_bounds((scaled / 2) as nat);
            assert(spacing * (2 * s) == (spacing * 2) * s) by (nonlinear_arith);
            assert(spacing * 2 <= (spacing * 2) * s) by (nonlinear_arith)
                requires
                    s >= 1,
            ;
        }
        spacing = spacing * 2;
        scaled = scaled / 2;
    }
    assert(spacing == double_spacing(size as nat)) by (nonlinear_arith)
        requires
            spacing * double_spacing(scaled as nat) == double_spacing(size as nat),
            double_spacing(scaled as nat) == 1,
    ;
    let count: u128 = divide_half_even(size as u128, spacing);
    proof {
        let n = size as int;
        let d = spacing as int;
        assert(count * d <= n + d && 0 <= count * d) by (nonlinear_arith)
            requires
                0 <= count <= n / d + 1,
                d > 0,
                n >= 0,
        ;
    }
    count * spacing
}

fn format_tenths(value: u128, unit: u128, suffix: &str) -> (res: String)
    requires
        0x400 <= unit <= 0x100_0000_0000,
        value < 0x2_0000_0000_0000_0000,
    ensures
        res@ == tenths_text(round_half_even((10 * value) as nat, unit as nat)) + suffix@,
{
    let tenths: u128 = divide_half_even(10 * value, unit);
    assert(tenths <= 0x1000_0000_0000_0000) by (nonlinear_arith)
        requires
            tenths <= (10 * value) / unit as int + 1,
            value < 0x2_0000_0000_0000_0000,
            unit >= 0x400,
    ;
    let mut out = text::format_decimal((tenths / 10) as u64);
    out.append(".");
    out.append(text::format_decimal((tenths % 10) as u64).as_str());
    out.append(suffix);
    out
}

/// A listing shows every entry exactly once, directories before files.
pub proof fn law_listing_shows_every_entry_once(entries: Seq<Entry>, folded: Seq<Seq<char>>)
    ensures
        listing_positions(entries, folded).to_multiset() == positions(entries.len()).to_multiset(),
        forall|i: int, j: int|
            #![trigger listing_positions(entries, folded)[i], listing_positions(entries, folded)[j]]
            0 <= i < j < listing_positions(entries, folded).len() ==> {
                let first = entries[listing_positions(entries, folded)[i] as int];
                let second = entries[listing_positions(entries, folded)[j] as int];
                first.is_dir || !second.is_dir
            },
{
    let relation = listing_relation(entries, folded);
    let order = listing_positions(entries, folded);
    lemma_listing_relation_is_total(entries, folded);
    positions(entries.len()).lemma_sort_by_ensures(relation);
    assert forall|i: int, j: int| #![trigger order[i], order[j]]
        0 <= i < j < order.len() implies entries[order[i] as int].is_dir
        || !entries[order[j] as int].is_dir by {
        assert(relation(order[i], order[j]));
    }
}

/// Escaped text holds no angle brackets, so a name cannot open a tag.
pub proof fn law_escaped_text_holds_no_tags(s: Seq<char>)
    ensures
        forall|i: int|
            0 <= i < escaped(s).len() ==> #[trigger] escaped(s)[i] != '<' && escaped(s)[i] != '>',
    decreases s.len(),
{
    if s.len() > 0 {
        law_escaped_text_holds_no_tags(s.skip(1));
        reveal_strlit("&amp;");
        reveal_strlit("&lt;");
        reveal_strlit("&gt;");
        let head = escaped_char(s[0]);
        let tail = escaped(s.skip(1));
        assert forall|i: int| 0 <= i < escaped(s).len() implies #[trigger] escaped(s)[i] != '<'
            && escaped(s)[i] != '>' by {
            if i < head.len() {
                assert(escaped(s)[i] == head[i]);
            } else {
                assert(escaped(s)[i] == tail[i - head.len()]);
            }
        }
    }
}

/// Whether a character can stand in an `href` path segment.
pub open spec fn is_href_char(c: char) -> bool {
    c == '%' || ('-' <= c <= '~' && is_unreserved(c as u8))
}

proof fn lemma_percent_encoded_chars(bytes: Seq<u8>)
    ensures
        forall|i: int|
            0 <= i < percent_encoded(bytes).len() ==> is_href_char(
                #[trigger] percent_encoded(bytes)[i],
            ),
    decreases bytes.len(),
{
    if bytes.len() > 0 {
        lemma_percent_encoded_chars(bytes.skip(1));
        let head = percent_encoded_byte(bytes[0]);
        let tail = percent_encoded(bytes.skip(1));
        let all = percent_encoded(bytes);
        assert forall|i: int| 0 <= i < all.len() implies is_href_char(#[trigger] all[i]) by {
            if i < head.len() {
                assert(all[i] == head[i]);
            } else {
                assert(all[i] == tail[i - head.len()]);
            }
        }
    }
}

/// An `href` path segment holds nothing but letters, digits, `-`, `.`, `_`,
/// `~` and `%`, so a name cannot end the attribute or add path segments.
pub proof fn law_href_is_inert(name: Seq<char>)
    ensures
        forall|i: int|
            0 <= i < href_segment(name).len() ==> is_href_char(#[trigger] href_segment(name)[i]),
{
    lemma_percent_encoded_chars(encode_utf8(name));
}

spec fn ascii_bytes(s: Seq<char>) -> Seq<u8> {
    Seq::new(s.len(), |i: int| s[i] as u8)
}

proof fn lemma_percent_round_trip(bytes: Seq<u8>)
    ensures
        path::percent_decoded(ascii_bytes(percent_encoded(bytes))) == bytes,
    decreases bytes.len(),
{
    let encoded = ascii_bytes(percent_encoded(bytes));
    if bytes.len() > 0 {
        lemma_percent_round_trip(bytes.skip(1));
        let b = bytes[0];
        let tail = ascii_bytes(percent_encoded(bytes.skip(1)));
        if is_unreserved(b) {
            assert(encoded[0] == b);
            assert(encoded.skip(1) =~= tail);
        } else {
            let (high, low) = (b as int / 16, b as int % 16);
            assert(encoded[0] == 37);
            assert(encoded[1] == upper_hex(high) as u8);
            assert(encoded[2] == upper_hex(low) as u8);
            assert(encoded.skip(3) =~= tail);
            assert(path::hex_value(encoded[1]) == Some(high as u8));
            assert(path::hex_value(encoded[2]) == Some(low as u8));
        }
        assert(bytes =~= seq![b] + bytes.skip(1));
        assert(path::percent_decoded(encoded) =~= bytes);
    } else {
        assert(encoded =~= seq![]);
        assert(path::percent_decoded(encoded) =~= bytes);
    }
}

/// The link of a listed entry leads back to it: path resolution decodes its
/// `href` to the entry's name.
pub proof fn law_href_decodes_to_the_name(name: Seq<char>)
    ensures
        path::decoded_segment(href_segment(name)) == Some(name),
{
    let bytes = encode_utf8(name);
    let href = href_segment(name);
    lemma_percent_encoded_chars(bytes);
    assert(vstd::utf8::is_ascii_chars(href)) by {
        assert forall|i: int| 0 <= i < href.len() implies '\0' <= #[trigger] href[i]
            <= '\u{7f}' by {
            assert(is_href_char(percent_encoded(bytes)[i]));
        }
    }
    vstd::utf8::is_ascii_chars_encode_utf8(href);
    assert(encode_utf8(href) =~= ascii_bytes(href));
    lemma_percent_round_trip(bytes);
    vstd::utf8::encode_utf8_valid_utf8(name);
    vstd::utf8::encode_utf8_decode_utf8(name);
}

/// Whether `a` comes no later than `b` in a dictionary: it is a beginning of
/// `b`, or has the smaller character at the first place where they differ.
pub open spec fn is_dictionary_order(a: Seq<char>, b: Seq<char>) -> bool {
    exists|k: int|
        #![trigger a.take(k)]
        0 <= k <= a.len() && k <= b.len() && a.take(k) == b.take(k) && (k == a.len() || (k
            < b.len() && a[k] < b[k]))
}

/// Texts are compared as in a dictionary.
pub proof fn law_comparison_is_dictionary_order(a: Seq<char>, b: Seq<char>)
    ensures
        chars_le(a, b) <==> is_dictionary_order(a, b),
    decreases a.len(),
{
    if a.len() == 0 {
        assert(a.take(0) =~= b.take(0));
    } else if b.len() > 0 {
        let (x, y) = (a.skip(1), b.skip(1));
        law_comparison_is_dictionary_order(x, y);
        if a[0] != b[0] && a[0] < b[0] {
            assert(a.take(0) =~= b.take(0));
        }
        if a[0] == b[0] && chars_le(x, y) {
            let k = choose|k: int|
                #![trigger x.take(k)]
                0 <= k <= x.len() && k <= y.len() && x.take(k) == y.take(k) && (k == x.len() || (k
                    < y.len() && x[k] < y[k]));
            assert(a.take(k + 1) =~= seq![a[0]] + x.take(k));
            assert(b.take(k + 1) =~= seq![b[0]] + y.take(k));
        }
        if is_dictionary_order(a, b) {
            let k = choose|k: int|
                #![trigger a.take(k)]
                0 <= k <= a.len() && k <= b.len() && a.take(k) == b.take(k) && (k == a.len() || (k
                    < b.len() && a[k] < b[k]));
            if k > 0 {
                assert(a.take(k)[0] == a[0]);
                assert(b.take(k)[0] == b[0]);
                assert(x.take(k - 1) =~= a.take(k).skip(1));
                assert(y.take(k - 1) =~= b.take(k).skip(1));
                if k < a.len() {
                    assert(x[k - 1] == a[k] && y[k - 1] == b[k]);
                }
                assert(is_dictionary_order(x, y));
            }
        }
    } else {
        if is_dictionary_order(a, b) {
            let k = choose|k: int|
                #![trigger a.take(k)]
                0 <= k <= a.len() && k <= b.len() && a.take(k) == b.take(k) && (k == a.len() || (k
                    < b.len() && a[k] < b[k]));
            assert(k == 0);
        }
    }
}

/// Directories are listed in alphabetical order, and so are files: by the
/// case-folded names, then by the exact names, then as given.
pub proof fn law_listing_is_alphabetical(
    entries: Seq<Entry>,
    folded: Seq<Seq<char>>,
    i: int,
    j: int,
)
    requires
        folded.len() == entries.len() <= usize::MAX,
        0 <= i < j < listing_positions(entries, folded).len(),
    ensures
        ({
            let a = listing_positions(entries, folded)[i];
            let b = listing_positions(entries, folded)[j];
            let (first, second) = (entries[a as int], entries[b as int]);
            &&& a < entries.len() && b < entries.len() && a != b
            &&& second.is_dir ==> first.is_dir
            &&& first.is_dir == second.is_dir ==> {
                &&& is_dictionary_order(folded[a as int], folded[b as int])
                &&& folded[a as int] == folded[b as int] ==> is_dictionary_order(
                    first.name,
                    second.name,
                )
                &&& folded[a as int] == folded[b as int] && first.name == second.name ==> a < b
            }
        }),
{
    let relation = listing_relation(entries, folded);
    let order = listing_positions(entries, folded);
    let all = positions(entries.len());
    lemma_listing_relation_is_total(entries, folded);
    all.lemma_sort_by_ensures(relation);
    let (a, b) = (order[i], order[j]);
    assert(relation(a, b));
    law_comparison_is_dictionary_order(folded[a as int], folded[b as int]);
    law_comparison_is_dictionary_order(entries[a as int].name, entries[b as int].name);
    assert(folded[a as int].take(folded[a as int].len() as int) =~= folded[a as int]);
    assert(is_dictionary_order(folded[a as int], folded[a as int]));
    let name = entries[a as int].name;
    assert(name.take(name.len() as int) =~= name);
    assert(is_dictionary_order(name, name));
    assert(all.no_duplicates());
    assert(all.to_multiset() == order.to_multiset());
    lemma_no_duplicates_follow(all, order);
    assert(order[i] != order[j]);
    assert(order.contains(a) && order.contains(b));
    assert(all.contains(a) && all.contains(b)) by {
        broadcast use vstd::seq_lib::group_to_multiset_ensures;

        assert(order.to_multiset().contains(a));
        assert(order.to_multiset().contains(b));
    }
}

proof fn lemma_no_duplicates_follow(all: Seq<usize>, order: Seq<usize>)
    requires
        all.no_duplicates(),
        all.to_multiset() == order.to_multiset(),
    ensures
        order.no_duplicates(),
{
    all.lemma_multiset_has_no_duplicates();
    order.lemma_multiset_has_no_duplicates_conv();
}

/// The page shows one row for each entry, in the order of the listing by the
/// lower-case forms of the names, between its head and its tail.
pub proof fn law_page_has_a_row_for_each_entry(
    url_path: Seq<char>,
    at_root: bool,
    entries: Seq<Entry>,
)
    ensures
        ({
            let folded = Seq::new(entries.len(), |i: int| lowercase(entries[i].name));
            let rows = listing_positions(entries, folded).map_values(
                |k: usize|
                    row_text(
                        entries[k as int],
                        validators::http_date_text(entries[k as int].mtime_unix as int),
                    ),
            );
            listing_page(url_path, at_root, entries) == page_head(url_path, at_root)
                + rows.flatten() + page_tail()
        }),
{
    let folded = Seq::new(entries.len(), |i: int| lowercase(entries[i].name));
    assert(folded_names(entries) =~= folded);
    lemma_rows_flatten(entries, listing_positions(entries, folded));
}

proof fn lemma_rows_flatten(entries: Seq<Entry>, order: Seq<usize>)
    ensures
        rows_text(entries, order) == order.map_values(
            |k: usize|
                row_text(
                    entries[k as int],
                    validators::http_date_text(entries[k as int].mtime_unix as int),
                ),
        ).flatten(),
    decreases order.len(),
{
    let row = |k: usize|
        row_text(
            entries[k as int],
            validators::http_date_text(entries[k as int].mtime_unix as int),
        );
    let rows = order.map_values(row);
    if order.len() > 0 {
        lemma_rows_flatten(entries, order.drop_last());
        assert(order.drop_last().map_values(row) =~= rows.drop_last());
        rows.lemma_flatten_and_flatten_alt_are_equivalent();
        rows.drop_last().lemma_flatten_and_flatten_alt_are_equivalent();
        assert(rows.last() == row(order.last()));
    } else {
        assert(rows_text(entries, order) =~= rows.flatten());
    }
}

/// The head of the page shows the path twice, as title and as heading, and
/// below the root a link to the parent directory.
pub proof fn law_page_head_shows_the_path(url_path: Seq<char>)
    ensures
        page_head(url_path, true)
            == "<!DOCTYPE html>\n<html>\n<head>\n<meta charset=\"utf-8\">\n<title>Index of "@
            + escaped(url_path) + "</title>\n</head>\n<body>\n<h1>Index of "@ + escaped(url_path)
            + "</h1>\n<table>\n<tr><th>Name</th><th>Size</th><th>Last modified</th></tr>\n"@,
        page_head(url_path, false) == page_head(url_path, true)
            + "<tr><td><a href=\"../\">../</a></td><td></td><td></td></tr>\n"@,
{
    reveal_strlit("");
    assert(page_head(url_path, true)
        =~= "<!DOCTYPE html>\n<html>\n<head>\n<meta charset=\"utf-8\">\n<title>Index of "@
        + escaped(url_path) + "</title>\n</head>\n<body>\n<h1>Index of "@ + escaped(url_path)
        + "</h1>\n<table>\n<tr><th>Name</th><th>Size</th><th>Last modified</th></tr>\n"@);
    assert(page_head(url_path, false) =~= page_head(url_path, true)
        + "<tr><td><a href=\"../\">../</a></td><td></td><td></td></tr>\n"@);
}

/// A row links to its entry by name and shows the name and the modification
/// time. A file has its size; a directory has a slash behind its name and in
/// its link, and no size.
pub proof fn law_rows_show_their_entries(entry: Entry, modified: Seq<char>)
    ensures
        !entry.is_dir ==> row_text(entry, modified) == "<tr><td><a href=\""@ + href_segment(
            entry.name,
        ) + "\">"@ + escaped(entry.name) + "</a></td><td>"@ + human_size(entry.size)
            + "</td><td>"@ + modified + "</td></tr>\n"@,
        entry.is_dir ==> row_text(entry, modified) == "<tr><td><a href=\""@ + href_segment(
            entry.name,
        ) + "/\">"@ + escaped(entry.name) + "/</a></td><td></td><td>"@ + modified
            + "</td></tr>\n"@,
{
    reveal_strlit("");
    reveal_strlit("/");
    reveal_strlit("\">");
    reveal_strlit("/\">");
    reveal_strlit("</a></td><td>");
    reveal_strlit("</td><td>");
    reveal_strlit("/</a></td><td></td><td>");
    let head = "<tr><td><a href=\""@ + href_segment(entry.name);
    let tail = "</td></tr>\n"@;
    if entry.is_dir {
        assert("/"@ + "\">"@ =~= "/\">"@);
        assert("/"@ + "</a></td><td>"@ + ""@ + "</td><td>"@ =~= "/</a></td><td></td><td>"@);
        assert(row_text(entry, modified) =~= head + ("/"@ + "\">"@) + escaped(entry.name) + ("/"@
            + "</a></td><td>"@ + ""@ + "</td><td>"@) + modified + tail);
    } else {
        assert(row_text(entry, modified) =~= head + "\">"@ + escaped(entry.name)
            + "</a></td><td>"@ + human_size(entry.size) + "</td><td>"@ + modified + tail);
    }
}

/// Letters, digits, `-`, `.`, `_` and `~` stand for themselves in a link.
pub proof fn law_plain_names_link_to_themselves(name: Seq<char>)
    requires
        forall|i: int|
            0 <= i < name.len() ==> {
                let c = #[trigger] name[i];
                'a' <= c <= 'z' || 'A' <= c <= 'Z' || '0' <= c <= '9' || c == '-' || c == '.' || c
                    == '_' || c == '~'
            },
    ensures
        href_segment(name) == name,
{
    assert(vstd::utf8::is_ascii_chars(name)) by {
        assert forall|i: int| 0 <= i < name.len() implies '\0' <= #[trigger] name[i]
            <= '\u{7f}' by {}
    }
    vstd::utf8::is_ascii_chars_encode_utf8(name);
    lemma_plain_bytes_stay(encode_utf8(name), name);
}

proof fn lemma_plain_bytes_stay(bytes: Seq<u8>, name: Seq<char>)
    requires
        bytes.len() == name.len(),
        forall|i: int|
            0 <= i < name.len() ==> #[trigger] bytes[i] == name[i] as u8 && is_unreserved(bytes[i])
                && '\0' <= name[i] <= '\u{7f}',
    ensures
        percent_encoded(bytes) == name,
    decreases bytes.len(),
{
    if bytes.len() > 0 {
        let (rest, tail) = (bytes.skip(1), name.skip(1));
        assert forall|i: int| 0 <= i < tail.len() implies #[trigger] rest[i] == tail[i] as u8
            && is_unreserved(rest[i]) && '\0' <= tail[i] <= '\u{7f}' by {
            assert(rest[i] == bytes[i + 1] && tail[i] == name[i + 1]);
        }
        lemma_plain_bytes_stay(rest, tail);
        assert(is_unreserved(bytes[0]));
        let (b, c) = (bytes[0], name[0]);
        assert('\0' <= c <= '\u{7f}');
        assert(c as u32 <= 0x7f);
        assert(b as u32 == c as u32);
        assert(b as char == c);
        assert(seq![name[0]] + tail =~= name);
    } else {
        assert(percent_encoded(bytes) =~= name);
    }
}

/// Rounding gives the nearest multiple, and the even one of two that are
/// equally near.
pub proof fn law_rounding_gives_the_nearest(n: nat, d: nat)
    requires
        d > 0,
    ensures
        ({
            let r = round_half_even(n, d);
            &&& 2 * (r * d - n) <= d
            &&& 2 * (n - r * d) <= d
            &&& 2 * (r * d - n) == d || 2 * (n - r * d) == d ==> r % 2 == 0
        }),
{
    let (quotient, rest) = (n / d, n % d);
    assert(n == quotient * d + rest && 0 <= rest < d) by (nonlinear_arith)
        requires
            quotient == n / d,
            rest == n % d,
            d > 0,
    ;
    assert((quotient + 1) * d == quotient * d + d) by (nonlinear_arith);
}

/// A size below 1 KiB is shown in bytes.
pub proof fn law_small_sizes_are_shown_in_bytes(size: u64)
    requires
        size < 1024,
    ensures
        human_size(size) == text::decimal(size as nat) + " B"@,
{
}

/// A larger size is shown in the largest unit that it reaches, as the nearest
/// number with one decimal place; of two that are equally near, as the one whose
/// last digit is even. `unit` is the unit in bytes and `name` its name.
pub proof fn law_sizes_are_shown_in_the_largest_unit(size: u64, unit: nat, name: Seq<char>)
    requires
        size < 0x20_0000_0000_0000,
        unit <= size,
        ({
            ||| unit == 1024 && name == " KiB"@ && size < 1024 * unit
            ||| unit == 1024 * 1024 && name == " MiB"@ && size < 1024 * unit
            ||| unit == 1024 * 1024 * 1024 && name == " GiB"@ && size < 1024 * unit
            ||| unit == 1024 * 1024 * 1024 * 1024 && name == " TiB"@
        }),
    ensures
        exists|tenths: nat|
            {
                &&& human_size(size) == #[trigger] text::decimal(tenths / 10) + "."@
                    + text::decimal(tenths % 10) + name
                &&& 2 * (10 * size - tenths * unit) <= unit
                &&& 2 * (tenths * unit - 10 * size) <= unit
                &&& (2 * (10 * size - tenths * unit) == unit || 2 * (tenths * unit - 10 * size)
                    == unit) ==> tenths % 2 == 0
            },
{
    law_doubles_are_nearest(size as nat);
    let tenths = round_half_even((10 * size) as nat, unit);
    law_rounding_gives_the_nearest((10 * size) as nat, unit);
    assert(human_size(size) == text::decimal(tenths / 10) + "."@ + text::decimal(tenths % 10)
        + name);
}

proof fn lemma_double_spacing(n: nat)
    requires
        n >= 0x20_0000_0000_0000,
    ensures
        0x10_0000_0000_0000 * double_spacing(n) <= n < 0x20_0000_0000_0000 * double_spacing(n),
        double_spacing(n) >= 2,
    decreases n,
{
    let half = n / 2;
    if half >= 0x20_0000_0000_0000 {
        lemma_double_spacing(half);
    } else {
        assert(double_spacing(half) == 1);
    }
    let s = double_spacing(half);
    assert(double_spacing(n) == 2 * s);
}

/// Sizes are first rounded as double-precision numbers are, to 53 significant
/// bits: smaller numbers stay as they are, larger ones go to the nearest
/// multiple of a power of two, and to the even one of two.
pub proof fn law_doubles_are_nearest(n: nat)
    ensures
        n < 0x20_0000_0000_0000 ==> nearest_double(n) == n,
        n >= 0x20_0000_0000_0000 ==> ({
            let s = double_spacing(n);
            let r = round_half_even(n, s);
            &&& 0x10_0000_0000_0000 * s <= n < 0x20_0000_0000_0000 * s
            &&& nearest_double(n) == r * s
            &&& 2 * (r * s - n) <= s
            &&& 2 * (n - r * s) <= s
            &&& (2 * (r * s - n) == s || 2 * (n - r * s) == s) ==> r % 2 == 0
        }),
{
    if n >= 0x20_0000_0000_0000 {
        lemma_double_spacing(n);
        law_rounding_gives_the_nearest(n, double_spacing(n));
    } else {
        assert(double_spacing(n) == 1);
        assert(n / 1 == n && n % 1 == 0);
        assert(round_half_even(n, 1) == n);
        assert(n * 1 == n) by (nonlinear_arith);
    }
}

/// Every entry is listed, and there are as many rows as entries.
pub proof fn law_no_entry_is_left_out(entries: Seq<Entry>, folded: Seq<Seq<char>>, k: int)
    requires
        0 <= k < entries.len() <= usize::MAX,
    ensures
        listing_positions(entries, folded).contains(k as usize),
        listing_positions(entries, folded).len() == entries.len(),
{
    let relation = listing_relation(entries, folded);
    let all = positions(entries.len());
    let order = listing_positions(entries, folded);
    lemma_listing_relation_is_total(entries, folded);
    all.lemma_sort_by_ensures(relation);
    all.to_multiset_ensures();
    order.to_multiset_ensures();
    assert(all[k] == k as usize);
    assert(all.contains(k as usize));
    assert(all.to_multiset().contains(k as usize));
}

} // verus!
