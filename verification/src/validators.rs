//! Strong validators (ETag, Last-Modified) and RFC 9110 conditional-request
//! evaluation (If-Match, If-None-Match, If-Modified-Since,
//! If-Unmodified-Since, If-Range).

use crate::tags::{self, check_entity_tag, check_names_tags, escape_quoted_blanks};
use crate::text;
use headers::Header;
use std::str::FromStr;
use std::time::{Duration, SystemTime, UNIX_EPOCH};
use vstd::prelude::*;

verus! {

/// The first second after the year 9999, where HTTP dates end.
pub const HTTP_DATE_END: u64 = 253_402_300_800;

/// The validators computed for a served resource.
pub struct Validators {
    /// Includes the surrounding double quotes, e.g. `"\"1a2b-3c4d.0\""`.
    /// Always a strong validator (never `W/`-prefixed).
    pub etag: String,
    pub last_modified_unix: i64,
}

/// Conditional-request headers, as raw header values.
pub struct ConditionalHeaders<'a> {
    pub if_none_match: Option<&'a str>,
    pub if_modified_since: Option<&'a str>,
    pub if_match: Option<&'a str>,
    pub if_unmodified_since: Option<&'a str>,
    pub if_range: Option<&'a str>,
}

/// Result of evaluating the applicable conditional-request headers against
/// the current validators.
#[derive(Debug, Clone, Copy, PartialEq, Eq, Structural)]
pub enum Condition {
    Proceed,
    NotModified,
    PreconditionFailed,
}

/// How one conditional header bears on the request.
#[derive(Debug, Clone, Copy, PartialEq, Eq, Structural)]
pub enum Check {
    /// The header was not sent.
    Absent,
    /// The header was sent but cannot be evaluated.
    Ignored,
    Passes,
    Fails,
}

/// Whether `s` can be the value of a header field.
pub open spec fn is_header_text(s: Seq<char>) -> bool {
    forall|i: int| 0 <= i < s.len() ==> is_header_char(#[trigger] s[i])
}

/// Whether `c` can occur in the value of a header field.
pub open spec fn is_header_char(c: char) -> bool {
    (' ' <= c && c != '\u{7f}') || c == '\t'
}

/// Whether `s` can be the value of a header field.
pub fn check_header_text(s: &str) -> (res: bool)
    ensures
        res == is_header_text(s@),
{
    let cs = text::chars(s);
    let mut i: usize = 0;
    while i < cs.len()
        invariant
            0 <= i <= cs.len(),
            cs@ == s@,
            forall|j: int| 0 <= j < i ==> is_header_char(#[trigger] cs@[j]),
        decreases cs.len() - i,
    {
        let c = cs[i];
        if !((' ' <= c && c != '\u{7f}') || c == '\t') {
            assert(!is_header_char(s@[i as int]));
            return false;
        }
        i += 1;
    }
    true
}

/// Whether `s` is an entity tag: an optional `W/`, then a quoted string
/// without inner quotes.
pub open spec fn is_entity_tag(s: Seq<char>) -> bool {
    is_header_text(s) && (is_quoted(s) || (text::has_prefix(s, seq!['W', '/']) && is_quoted(
        s.skip(2),
    )))
}

/// Whether `s` has a double quote at each end and none between.
pub open spec fn is_quoted(s: Seq<char>) -> bool {
    &&& s.len() >= 2
    &&& s[0] == '"'
    &&& s.last() == '"'
    &&& forall|i: int| 0 < i < s.len() - 1 ==> #[trigger] s[i] != '"'
}

/// Whether `s` is an entity tag without the weakness mark.
pub open spec fn is_strong_tag(s: Seq<char>) -> bool {
    is_header_text(s) && is_quoted(s)
}

/// Whether two entity tags match by strong comparison.
pub open spec fn tags_match_strongly(a: Seq<char>, b: Seq<char>) -> bool {
    a == b && is_quoted(a)
}

/// The quoted part of an entity tag.
pub open spec fn opaque_tag(s: Seq<char>) -> Seq<char> {
    if is_quoted(s) {
        s
    } else {
        s.skip(2)
    }
}

/// Whether two entity tags match by weak comparison.
pub open spec fn tags_match_weakly(a: Seq<char>, b: Seq<char>) -> bool {
    opaque_tag(a) == opaque_tag(b)
}

/// The ETag of a file with the given size and modification time.
pub open spec fn etag_text(size: u64, mtime_unix: i64, mtime_nanos: u32) -> Seq<char> {
    seq!['"'] + text::hexadecimal(size as nat) + seq!['-'] + text::hexadecimal(
        two_complement(mtime_unix),
    ) + seq!['.'] + text::hexadecimal(mtime_nanos as nat) + seq!['"']
}

/// The unsigned number with the bit pattern of `n`.
pub open spec fn two_complement(n: i64) -> nat {
    if n >= 0 {
        n as nat
    } else {
        (n + 0x1_0000_0000_0000_0000) as nat
    }
}

/// The unsigned number with the bit pattern of `n`.
pub fn bit_pattern(n: i64) -> (res: u64)
    ensures
        res == two_complement(n),
{
    if n >= 0 {
        n as u64
    } else {
        let magnitude: u64 = (-(n + 1)) as u64;
        u64::MAX - magnitude
    }
}

/// Builds a strong ETag from a file's size and modification time. The
/// format is `"{size:x}-{secs:x}.{nanos:x}"`, quoted.
pub fn make_etag(size: u64, mtime_unix: i64, mtime_nanos: u32) -> (res: String)
    ensures
        res@ == etag_text(size, mtime_unix, mtime_nanos),
        is_strong_tag(res@),
        vstd::utf8::is_ascii_chars(res@),
{
    // mtime_unix is treated as its bit pattern rather than rejecting
    // negative values, since pre-1970 mtimes are rare but not impossible on
    // some filesystems and this only needs to be a stable fingerprint, not
    // a meaningful number on its own.
    let mut out = String::new();
    out.push('"');
    out.append(text::format_hexadecimal(size).as_str());
    out.push('-');
    out.append(text::format_hexadecimal(bit_pattern(mtime_unix)).as_str());
    out.push('.');
    out.append(text::format_hexadecimal(mtime_nanos as u64).as_str());
    out.push('"');
    assert(out@ =~= etag_text(size, mtime_unix, mtime_nanos));
    proof {
        lemma_etag_is_strong(size, mtime_unix, mtime_nanos);
    }
    out
}

proof fn lemma_etag_is_strong(size: u64, mtime_unix: i64, mtime_nanos: u32)
    ensures
        is_strong_tag(etag_text(size, mtime_unix, mtime_nanos)),
        vstd::utf8::is_ascii_chars(etag_text(size, mtime_unix, mtime_nanos)),
{
    let a = text::hexadecimal(size as nat);
    let b = text::hexadecimal(two_complement(mtime_unix));
    let c = text::hexadecimal(mtime_nanos as nat);
    text::lemma_numeral_chars(size as nat, 16);
    text::lemma_numeral_chars(two_complement(mtime_unix), 16);
    text::lemma_numeral_chars(mtime_nanos as nat, 16);
    let s = etag_text(size, mtime_unix, mtime_nanos);
    assert forall|i: int| 0 <= i < s.len() implies {
        let ch = #[trigger] s[i];
        &&& is_header_char(ch)
        &&& (ch as nat) < 128
        &&& 0 < i < s.len() - 1 ==> ch != '"'
    } by {
        if i == 0 {
        } else if i < 1 + a.len() {
            assert(s[i] == a[i - 1]);
        } else if i == 1 + a.len() {
        } else if i < 2 + a.len() + b.len() {
            assert(s[i] == b[i - 2 - a.len()]);
        } else if i == 2 + a.len() + b.len() {
        } else if i < 3 + a.len() + b.len() + c.len() {
            assert(s[i] == c[i - 3 - a.len() - b.len()]);
        }
    }
}

/// The HTTP IMF-fixdate for a Unix timestamp, as the `httpdate` crate writes
/// it.
pub uninterp spec fn http_date_text(unix: int) -> Seq<char>;

/// `httpdate::fmt_http_date` on the given number of seconds after the epoch.
/// The result is a function of the number, consists of 29 printable ASCII
/// characters, and is named by [`http_date_text`].
#[verifier::external_body]
fn fmt_http_date(unix: u64) -> (res: String)
    requires
        unix < HTTP_DATE_END,
    ensures
        res@ == http_date_text(unix as int),
        res@.len() == 29,
        forall|i: int| 0 <= i < res@.len() ==> ' ' <= #[trigger] res@[i] <= '~',
{
    httpdate::fmt_http_date(UNIX_EPOCH + Duration::from_secs(unix))
}

/// Whether a Unix timestamp has an HTTP date.
pub open spec fn has_http_date(unix: i64) -> bool {
    0 <= unix < HTTP_DATE_END
}

/// Formats a Unix timestamp as an HTTP IMF-fixdate, e.g.
/// `"Sun, 06 Nov 1994 08:49:37 GMT"`. Sub-second precision is discarded.
pub fn format_http_date(unix: i64) -> (res: String)
    requires
        has_http_date(unix),
    ensures
        res@ == http_date_text(unix as int),
        res@.len() == 29,
        is_header_text(res@),
{
    fmt_http_date(unix as u64)
}

/// Whether an `If-Match` value admits a resource with the given ETag, or
/// `None` when either cannot be decoded: `*` admits everything, and a list of
/// tags what some tag of it matches by strong comparison. A list that is not
/// ASCII counts as empty.
pub open spec fn if_match_passes(raw: Seq<char>, etag: Seq<char>) -> Option<bool> {
    if !is_header_text(raw) || !is_entity_tag(etag) {
        None
    } else {
        Some(
            raw == seq!['*'] || (vstd::utf8::is_ascii_chars(raw) && tags::list_matches_strongly(
                raw,
                etag,
            )),
        )
    }
}

/// Whether an `If-None-Match` value admits a resource with the given ETag, or
/// `None` when either cannot be decoded: `*` admits nothing, and a list of tags
/// what no tag of it matches by weak comparison. A list that is not ASCII
/// counts as empty.
pub open spec fn if_none_match_passes(raw: Seq<char>, etag: Seq<char>) -> Option<bool> {
    if !is_header_text(raw) || !is_entity_tag(etag) {
        None
    } else {
        Some(
            !(raw == seq!['*'] || (vstd::utf8::is_ascii_chars(raw) && tags::list_matches_weakly(
                raw,
                etag,
            ))),
        )
    }
}

/// The timestamp of an `If-Modified-Since` value, if it is an HTTP date.
pub uninterp spec fn if_modified_since_date(raw: Seq<char>) -> Option<u64>;

/// The timestamp of an `If-Unmodified-Since` value, if it is an HTTP date.
pub uninterp spec fn if_unmodified_since_date(raw: Seq<char>) -> Option<u64>;

/// `headers::IfMatch::precondition_passes`, on a value decoded from `raw` and
/// a `headers::ETag` read from `etag`. Decoding fails exactly for a `raw` that
/// is no header value or an `etag` that is no entity tag. The crate splits the
/// value at commas outside quotes, trims the items, passes over those that are
/// no entity tags, and compares the others strongly. In builds with debug
/// assertions it asserts that tags hold no blanks.
#[verifier::external_body]
fn if_match(raw: &str, etag: &str) -> (res: Option<bool>)
    requires
        !tags::has_quoted_blank(raw@),
        !tags::has_quoted_blank(etag@),
    ensures
        res == if_match_passes(raw@, etag@),
{
    let value = http::HeaderValue::from_str(raw).ok()?;
    let header = headers::IfMatch::decode(&mut std::iter::once(&value)).ok()?;
    let tag = headers::ETag::from_str(etag).ok()?;
    Some(header.precondition_passes(&tag))
}

/// `headers::IfNoneMatch::precondition_passes`, on a value decoded from `raw`
/// and a `headers::ETag` read from `etag`. Decoding fails exactly for a `raw`
/// that is no header value or an `etag` that is no entity tag. The crate splits
/// the value at commas outside quotes, trims the items, passes over those that
/// are no entity tags, and compares the others weakly. In builds with debug
/// assertions it asserts that tags hold no blanks.
#[verifier::external_body]
fn if_none_match(raw: &str, etag: &str) -> (res: Option<bool>)
    requires
        !tags::has_quoted_blank(raw@),
        !tags::has_quoted_blank(etag@),
    ensures
        res == if_none_match_passes(raw@, etag@),
{
    let value = http::HeaderValue::from_str(raw).ok()?;
    let header = headers::IfNoneMatch::decode(&mut std::iter::once(&value)).ok()?;
    let tag = headers::ETag::from_str(etag).ok()?;
    Some(header.precondition_passes(&tag))
}

/// `headers::IfModifiedSince::decode`, as seconds after the epoch. An HTTP
/// date is read back as the timestamp it was written from. No entity tag is a
/// date.
#[verifier::external_body]
fn if_modified_since(raw: &str) -> (res: Option<u64>)
    ensures
        res == if_modified_since_date(raw@),
        is_entity_tag(raw@) ==> res is None,
        forall|unix: int|
            0 <= unix < HTTP_DATE_END && raw@ == #[trigger] http_date_text(unix) ==> res == Some(
                unix as u64,
            ),
{
    let value = http::HeaderValue::from_str(raw).ok()?;
    let header = headers::IfModifiedSince::decode(&mut std::iter::once(&value)).ok()?;
    let since = SystemTime::from(header).duration_since(UNIX_EPOCH).ok()?;
    Some(since.as_secs())
}

/// `headers::IfUnmodifiedSince::decode`, as seconds after the epoch. An HTTP
/// date is read back as the timestamp it was written from.
#[verifier::external_body]
fn if_unmodified_since(raw: &str) -> (res: Option<u64>)
    ensures
        res == if_unmodified_since_date(raw@),
        forall|unix: int|
            0 <= unix < HTTP_DATE_END && raw@ == #[trigger] http_date_text(unix) ==> res == Some(
                unix as u64,
            ),
{
    let value = http::HeaderValue::from_str(raw).ok()?;
    let header = headers::IfUnmodifiedSince::decode(&mut std::iter::once(&value)).ok()?;
    let since = SystemTime::from(header).duration_since(UNIX_EPOCH).ok()?;
    Some(since.as_secs())
}

/// `headers::IfRange::is_modified`, negated, on a value decoded from `raw`, a
/// `headers::ETag` read from `etag`, and a modification time, for a `raw` that
/// is an entity tag or else a date as [`if_modified_since`] reads it. A tag is
/// compared strongly, and an `etag` that is no entity tag matches none; a date
/// names every state that is no newer. In builds with debug assertions the crate
/// asserts that tags hold no blanks.
#[verifier::external_body]
fn if_range(raw: &str, etag: &str, unix: u64) -> (res: bool)
    requires
        unix < HTTP_DATE_END,
        is_entity_tag(raw@) || if_modified_since_date(raw@) is Some,
        is_entity_tag(raw@) ==> !tags::has_quoted_blank(raw@),
        !tags::has_quoted_blank(etag@),
    ensures
        res == if is_entity_tag(raw@) {
            is_entity_tag(etag@) && tags_match_strongly(raw@, etag@)
        } else {
            unix <= if_modified_since_date(raw@)->0
        },
{
    let Ok(value) = http::HeaderValue::from_str(raw) else { return false };
    let Ok(header) = headers::IfRange::decode(&mut std::iter::once(&value)) else { return false };
    let tag = headers::ETag::from_str(etag).ok();
    let modified = headers::LastModified::from(UNIX_EPOCH + Duration::from_secs(unix));
    !header.is_modified(tag.as_ref(), Some(&modified))
}

/// The characters of an optional header value.
pub open spec fn text_of(header: Option<&str>) -> Option<Seq<char>> {
    match header {
        Some(raw) => Some(raw@),
        None => None,
    }
}

/// The check made of an optional verdict.
pub open spec fn check_of(verdict: Option<bool>) -> Check {
    match verdict {
        Some(true) => Check::Passes,
        Some(false) => Check::Fails,
        None => Check::Ignored,
    }
}

/// How `If-Match` bears on a resource. A value that names no tags is ignored.
pub open spec fn if_match_check(header: Option<Seq<char>>, etag: Seq<char>) -> Check {
    match header {
        Some(raw) => if tags::names_tags(raw) {
            check_of(if_match_passes(raw, etag))
        } else {
            Check::Ignored
        },
        None => Check::Absent,
    }
}

/// How `If-None-Match` bears on a resource. A value that names no tags is
/// ignored.
pub open spec fn if_none_match_check(header: Option<Seq<char>>, etag: Seq<char>) -> Check {
    match header {
        Some(raw) => if tags::names_tags(raw) {
            check_of(if_none_match_passes(raw, etag))
        } else {
            Check::Ignored
        },
        None => Check::Absent,
    }
}

/// How `If-Unmodified-Since` bears on a resource: it passes when the resource
/// is no newer than the date.
pub open spec fn if_unmodified_since_check(header: Option<Seq<char>>, unix: int) -> Check {
    match header {
        Some(raw) => match if_unmodified_since_date(raw) {
            Some(date) => check_of(Some(unix <= date)),
            None => Check::Ignored,
        },
        None => Check::Absent,
    }
}

/// How `If-Modified-Since` bears on a resource: it passes when the resource is
/// newer than the date.
pub open spec fn if_modified_since_check(header: Option<Seq<char>>, unix: int) -> Check {
    match header {
        Some(raw) => match if_modified_since_date(raw) {
            Some(date) => check_of(Some(date < unix)),
            None => Check::Ignored,
        },
        None => Check::Absent,
    }
}

/// The condition that four checks add up to, in RFC 9110 §13.2.2 precedence
/// order: the date checks count only where the header with the tags is absent.
pub open spec fn condition_of(
    if_match: Check,
    if_unmodified_since: Check,
    if_none_match: Check,
    if_modified_since: Check,
) -> Condition {
    if if_match == Check::Fails || (if_match == Check::Absent && if_unmodified_since
        == Check::Fails) {
        Condition::PreconditionFailed
    } else if if_none_match == Check::Fails || (if_none_match == Check::Absent
        && if_modified_since == Check::Fails) {
        Condition::NotModified
    } else {
        Condition::Proceed
    }
}

/// The condition of a request for a resource with the given validators.
pub open spec fn condition(
    if_match: Option<Seq<char>>,
    if_unmodified_since: Option<Seq<char>>,
    if_none_match: Option<Seq<char>>,
    if_modified_since: Option<Seq<char>>,
    etag: Seq<char>,
    unix: int,
) -> Condition {
    condition_of(
        if_match_check(if_match, etag),
        if_unmodified_since_check(if_unmodified_since, unix),
        if_none_match_check(if_none_match, etag),
        if_modified_since_check(if_modified_since, unix),
    )
}

/// Adds up the checks of the four conditional headers.
pub fn combine_checks(
    if_match: Check,
    if_unmodified_since: Check,
    if_none_match: Check,
    if_modified_since: Check,
) -> (res: Condition)
    ensures
        res == condition_of(if_match, if_unmodified_since, if_none_match, if_modified_since),
{
    // If-Match (else If-Unmodified-Since) can fail the precondition (412).
    if if_match == Check::Fails || (if_match == Check::Absent && if_unmodified_since
        == Check::Fails) {
        return Condition::PreconditionFailed;
    }
    // If-None-Match (else If-Modified-Since) can short-circuit to 304.

    if if_none_match == Check::Fails || (if_none_match == Check::Absent && if_modified_since
        == Check::Fails) {
        return Condition::NotModified;
    }
    Condition::Proceed
}

/// The check for a decoded verdict.
pub fn verdict_check(verdict: Option<bool>) -> (res: Check)
    ensures
        res == check_of(verdict),
{
    match verdict {
        Some(true) => Check::Passes,
        Some(false) => Check::Fails,
        None => Check::Ignored,
    }
}

/// Whether a resource modified at `unix` is newer than the date.
pub fn is_newer(unix: i64, date: u64) -> (res: bool)
    ensures
        res == (date < unix),
{
    unix >= 0 && date < unix as u64
}

/// Whether a header is the HTTP date of the given timestamp.
pub open spec fn is_date_of(header: Option<Seq<char>>, unix: int) -> bool {
    0 <= unix < HTTP_DATE_END && header == Some(http_date_text(unix))
}

/// Whether a header is a single entity tag in ASCII.
pub open spec fn is_one_tag(header: Option<Seq<char>>) -> bool {
    header matches Some(raw) && is_entity_tag(raw) && vstd::utf8::is_ascii_chars(raw)
}

/// What a condition owes to the conditional headers that it answers, each
/// clause for the requests that it alone decides.
pub open spec fn answers_conditionals(
    if_match: Option<Seq<char>>,
    if_unmodified_since: Option<Seq<char>>,
    if_none_match: Option<Seq<char>>,
    if_modified_since: Option<Seq<char>>,
    etag: Seq<char>,
    unix: int,
    res: Condition,
) -> bool {
    // Without conditional headers every request proceeds.
    &&& if_match is None && if_unmodified_since is None && if_none_match is None
        && if_modified_since is None ==> res == Condition::Proceed
    // `If-Match` fails exactly for another tag, and `*` admits everything.
    &&& is_strong_tag(etag) && is_one_tag(if_match) ==> (res == Condition::PreconditionFailed <==> if_match
        != Some(etag))
    &&& if_match == Some(seq!['*']) ==> res != Condition::PreconditionFailed
    // A value without quotes holds no tags, and is ignored.
    &&& (if_match matches Some(raw) && !raw.contains('"')) ==> res != Condition::PreconditionFailed
    &&& (if_match matches Some(raw) && !raw.contains('"')) && if_none_match is None
        && if_modified_since is None ==> res == Condition::Proceed
    // `If-Unmodified-Since` fails exactly for a date older than the resource.
    &&& if_match is None ==> forall|date: int| #[trigger]
        is_date_of(if_unmodified_since, date) ==> (res == Condition::PreconditionFailed <==> date
            < unix)
    &&& if_match is None && if_none_match is None && if_modified_since is None ==> forall|date: int|
        #[trigger]
        is_date_of(if_unmodified_since, date) && unix <= date ==> res == Condition::Proceed
    // `If-None-Match` tells a client with a matching tag that it is current.
    &&& if_match is None && if_unmodified_since is None && is_strong_tag(etag) && is_one_tag(
        if_none_match,
    ) ==> res == if tags_match_weakly(if_none_match->0, etag) {
        Condition::NotModified
    } else {
        Condition::Proceed
    }
    &&& if_match is None && if_unmodified_since is None && is_strong_tag(etag) && if_none_match
        == Some(seq!['*']) ==> res == Condition::NotModified
    // `If-Modified-Since` tells so a client whose date is no older.
    &&& if_match is None && if_unmodified_since is None && if_none_match is None ==> forall|
        date: int,
    | #[trigger]
        is_date_of(if_modified_since, date) ==> res == if date < unix {
            Condition::Proceed
        } else {
            Condition::NotModified
        }
}

/// Evaluates conditional headers in RFC 9110 §13.2.2 precedence order:
/// If-Match, then If-Unmodified-Since, then If-None-Match, then
/// If-Modified-Since. An unparseable conditional header is ignored.
pub fn evaluate_conditionals(headers: &ConditionalHeaders, v: &Validators) -> (res: Condition)
    ensures
        res == condition(
            text_of(headers.if_match),
            text_of(headers.if_unmodified_since),
            text_of(headers.if_none_match),
            text_of(headers.if_modified_since),
            v.etag@,
            v.last_modified_unix as int,
        ),
        answers_conditionals(
            text_of(headers.if_match),
            text_of(headers.if_unmodified_since),
            text_of(headers.if_none_match),
            text_of(headers.if_modified_since),
            v.etag@,
            v.last_modified_unix as int,
            res,
        ),
{
    let escaped_etag = escape_quoted_blanks(v.etag.as_str());
    let etag = escaped_etag.as_str();
    let unix: i64 = v.last_modified_unix;
    proof {
        lemma_tag_headers(text_of(headers.if_match), v.etag@);
        lemma_tag_headers(text_of(headers.if_none_match), v.etag@);
    }
    let if_match_check = match headers.if_match {
        Some(raw) => {
            let escaped_raw = escape_quoted_blanks(raw);
            proof {
                law_escapes_keep_verdicts(raw@, v.etag@);
            }
            if check_names_tags(raw) {
                verdict_check(if_match(escaped_raw.as_str(), etag))
            } else {
                Check::Ignored
            }
        },
        None => Check::Absent,
    };
    let if_unmodified_since_check = match headers.if_unmodified_since {
        Some(raw) => match if_unmodified_since(raw) {
            Some(date) => verdict_check(Some(!is_newer(unix, date))),
            None => Check::Ignored,
        },
        None => Check::Absent,
    };
    let if_none_match_check = match headers.if_none_match {
        Some(raw) => {
            let escaped_raw = escape_quoted_blanks(raw);
            proof {
                law_escapes_keep_verdicts(raw@, v.etag@);
            }
            if check_names_tags(raw) {
                verdict_check(if_none_match(escaped_raw.as_str(), etag))
            } else {
                Check::Ignored
            }
        },
        None => Check::Absent,
    };
    let if_modified_since_check = match headers.if_modified_since {
        Some(raw) => match if_modified_since(raw) {
            Some(date) => verdict_check(Some(is_newer(unix, date))),
            None => Check::Ignored,
        },
        None => Check::Absent,
    };
    combine_checks(
        if_match_check,
        if_unmodified_since_check,
        if_none_match_check,
        if_modified_since_check,
    )
}

proof fn lemma_tag_headers(header: Option<Seq<char>>, etag: Seq<char>)
    ensures
        is_strong_tag(etag) && is_one_tag(header) ==> if_match_check(header, etag) == if header
            == Some(etag) {
            Check::Passes
        } else {
            Check::Fails
        },
        is_strong_tag(etag) && is_one_tag(header) ==> if_none_match_check(header, etag)
            == if tags_match_weakly(header->0, etag) {
            Check::Fails
        } else {
            Check::Passes
        },
        header == Some(seq!['*']) ==> if_match_check(header, etag) != Check::Fails,
        is_strong_tag(etag) && header == Some(seq!['*']) ==> if_none_match_check(header, etag)
            == Check::Fails,
        header matches Some(raw) && !raw.contains('"') && raw != seq!['*'] ==> if_match_check(
            header,
            etag,
        ) == Check::Ignored && if_none_match_check(header, etag) == Check::Ignored,
{
    if let Some(raw) = header {
        if !raw.contains('"') {
            tags::lemma_no_quotes_no_tags(raw);
        }
        if raw == seq!['*'] {
            assert(!raw.contains('"'));
            assert(is_header_text(raw));
        }
        if is_strong_tag(etag) && is_one_tag(header) {
            tags::lemma_tag_is_a_list(raw);
            assert(tags::list_items(raw)[0] == raw);
            assert(raw.len() >= 2);
            assert(tags::list_matches_strongly(raw, etag) == tags_match_strongly(raw, etag));
            assert(tags::list_matches_weakly(raw, etag) == tags_match_weakly(raw, etag));
        }
    }
}

/// Escaping the blanks inside quotes, in a header and in the ETag alike, changes
/// no verdict on the two.
pub proof fn law_escapes_keep_verdicts(raw: Seq<char>, etag: Seq<char>)
    ensures
        tags::names_tags(tags::escaped(raw)) == tags::names_tags(raw),
        if_match_passes(tags::escaped(raw), tags::escaped(etag)) == if_match_passes(raw, etag),
        if_none_match_passes(tags::escaped(raw), tags::escaped(etag)) == if_none_match_passes(
            raw,
            etag,
        ),
{
    tags::lemma_escaped_chars(raw, false);
    tags::lemma_escaped_tags(etag, etag);
    tags::lemma_escaped_star(raw);
    tags::law_escapes_keep_strong_matches(raw, etag);
    if is_entity_tag(etag) {
        tags::law_escapes_keep_weak_matches(raw, etag);
    }
}

/// Whether an `If-Range` value permits serving a range of a resource: a date
/// that is no older than the resource, or its tag, which must be strong.
pub open spec fn if_range_permits(raw: Seq<char>, etag: Seq<char>, unix: i64) -> bool {
    has_http_date(unix) && if is_entity_tag(raw) {
        is_entity_tag(etag) && tags_match_strongly(raw, etag)
    } else {
        if_modified_since_date(raw) matches Some(date) && unix <= date
    }
}

/// Whether an `If-Range` value permits serving a range: true when the
/// resource has not been modified relative to the client's validator. Per
/// RFC 9110 §13.1.5 a weak ETag never satisfies If-Range. An unparseable
/// value serves the full representation, and so does a resource whose
/// modification time has no HTTP date.
pub fn if_range_matches(if_range_value: &str, v: &Validators) -> (res: bool)
    ensures
        res == if_range_permits(if_range_value@, v.etag@, v.last_modified_unix),
        // A tag permits exactly if it is the strong one of the resource.
        has_http_date(v.last_modified_unix) && is_entity_tag(if_range_value@) && is_entity_tag(
            v.etag@,
        ) ==> res == tags_match_strongly(if_range_value@, v.etag@),
        is_entity_tag(if_range_value@) && !is_quoted(if_range_value@) ==> !res,
        // A date permits exactly if the resource is no newer.
        has_http_date(v.last_modified_unix) ==> forall|date: int| #[trigger]
            is_date_of(Some(if_range_value@), date) ==> res == (v.last_modified_unix <= date),
        // A value that is neither permits nothing.
        !is_entity_tag(if_range_value@) && if_modified_since_date(if_range_value@) is None ==> !res,
{
    if v.last_modified_unix < 0 || v.last_modified_unix as u64 >= HTTP_DATE_END {
        return false;
    }
    let unix: u64 = v.last_modified_unix as u64;
    let etag = escape_quoted_blanks(v.etag.as_str());
    proof {
        tags::lemma_escaped_tags(if_range_value@, v.etag@);
        tags::lemma_escaped_tags(v.etag@, v.etag@);
    }
    if if_modified_since(if_range_value).is_some() {
        return if_range(if_range_value, etag.as_str(), unix);
    }
    if !check_entity_tag(text::chars(if_range_value).as_slice()) {
        return false;
    }
    if_range(escape_quoted_blanks(if_range_value).as_str(), etag.as_str(), unix)
}

/// Two files with the same ETag have the same size and modification time.
pub proof fn law_etag_identifies_the_file_state(
    size_a: u64,
    unix_a: i64,
    nanos_a: u32,
    size_b: u64,
    unix_b: i64,
    nanos_b: u32,
)
    requires
        etag_text(size_a, unix_a, nanos_a) == etag_text(size_b, unix_b, nanos_b),
    ensures
        size_a == size_b,
        unix_a == unix_b,
        nanos_a == nanos_b,
{
    let s = etag_text(size_a, unix_a, nanos_a);
    let a1 = text::hexadecimal(size_a as nat);
    let a2 = text::hexadecimal(two_complement(unix_a));
    let a3 = text::hexadecimal(nanos_a as nat);
    let b1 = text::hexadecimal(size_b as nat);
    let b2 = text::hexadecimal(two_complement(unix_b));
    let b3 = text::hexadecimal(nanos_b as nat);
    text::lemma_numeral_chars(size_a as nat, 16);
    text::lemma_numeral_chars(two_complement(unix_a), 16);
    text::lemma_numeral_chars(nanos_a as nat, 16);
    text::lemma_numeral_chars(size_b as nat, 16);
    text::lemma_numeral_chars(two_complement(unix_b), 16);
    text::lemma_numeral_chars(nanos_b as nat, 16);
    assert forall|i: int| 0 <= i < 1 + a1.len() implies #[trigger] s[i] != '-' by {
        if i > 0 {
            assert(s[i] == a1[i - 1]);
        }
    }
    assert forall|i: int| 0 <= i < 1 + b1.len() implies #[trigger] s[i] != '-' by {
        if i > 0 {
            assert(s[i] == b1[i - 1]);
        }
    }
    text::lemma_position_is(s, '-', 1 + a1.len() as int);
    text::lemma_position_is(s, '-', 1 + b1.len() as int);
    assert(a1 =~= s.subrange(1, 1 + a1.len() as int));
    assert(b1 =~= s.subrange(1, 1 + b1.len() as int));
    let t = s.skip(2 + a1.len() as int);
    assert(t =~= a2 + seq!['.'] + a3 + seq!['"']);
    assert(t =~= b2 + seq!['.'] + b3 + seq!['"']);
    assert forall|i: int| 0 <= i < a2.len() implies #[trigger] t[i] != '.' by {
        assert(t[i] == a2[i]);
    }
    assert forall|i: int| 0 <= i < b2.len() implies #[trigger] t[i] != '.' by {
        assert(t[i] == b2[i]);
    }
    text::lemma_position_is(t, '.', a2.len() as int);
    text::lemma_position_is(t, '.', b2.len() as int);
    assert(a2 =~= t.take(a2.len() as int));
    assert(b2 =~= t.take(b2.len() as int));
    let u = t.skip(1 + a2.len() as int);
    assert(u =~= a3 + seq!['"']);
    assert(u =~= b3 + seq!['"']);
    assert(a3 =~= u.drop_last());
    assert(b3 =~= u.drop_last());
    text::lemma_numeral_injective(size_a as nat, size_b as nat, 16);
    text::lemma_numeral_injective(two_complement(unix_a), two_complement(unix_b), 16);
    text::lemma_numeral_injective(nanos_a as nat, nanos_b as nat, 16);
}

/// An entity tag is a quoted text of header characters without quotes, and may
/// have `W/` in front. Such tags match strongly exactly if they are the same and
/// neither is weak, and weakly exactly if their quoted texts are the same.
pub proof fn law_tags_are_compared_by_their_quoted_texts(
    a: Seq<char>,
    b: Seq<char>,
    weak_a: bool,
    weak_b: bool,
)
    requires
        is_header_text(a),
        is_header_text(b),
        !a.contains('"'),
        !b.contains('"'),
    ensures
        ({
            let x = (if weak_a {
                "W/\""@
            } else {
                "\""@
            }) + a + "\""@;
            let y = (if weak_b {
                "W/\""@
            } else {
                "\""@
            }) + b + "\""@;
            &&& is_entity_tag(x) && is_entity_tag(y)
            &&& is_strong_tag(x) == !weak_a
            &&& tags_match_strongly(x, y) <==> a == b && !weak_a && !weak_b
            &&& tags_match_weakly(x, y) <==> a == b
        }),
{
    reveal_strlit("\"");
    reveal_strlit("W/\"");
    lemma_tag_parts(a, weak_a);
    lemma_tag_parts(b, weak_b);
    let (p, q) = ("\""@ + a + "\""@, "\""@ + b + "\""@);
    if p == q {
        assert(a =~= p.subrange(1, p.len() - 1));
        assert(b =~= q.subrange(1, q.len() - 1));
    }
    let x = (if weak_a {
        "W/\""@
    } else {
        "\""@
    }) + a + "\""@;
    let y = (if weak_b {
        "W/\""@
    } else {
        "\""@
    }) + b + "\""@;
    assert(x[0] == if weak_a { 'W' } else { '"' });
    assert(y[0] == if weak_b { 'W' } else { '"' });
}

proof fn lemma_tag_parts(a: Seq<char>, weak: bool)
    requires
        is_header_text(a),
        !a.contains('"'),
    ensures
        ({
            let x = (if weak {
                "W/\""@
            } else {
                "\""@
            }) + a + "\""@;
            &&& is_entity_tag(x)
            &&& is_quoted(x) == !weak
            &&& is_header_text(x)
            &&& opaque_tag(x) == "\""@ + a + "\""@
        }),
{
    reveal_strlit("\"");
    reveal_strlit("W/\"");
    let quoted = "\""@ + a + "\""@;
    assert forall|i: int| 0 < i < quoted.len() - 1 implies #[trigger] quoted[i] != '"' by {
        assert(a.contains(a[i - 1]));
    }
    assert forall|i: int| 0 <= i < quoted.len() implies is_header_char(#[trigger] quoted[i]) by {
        if 0 < i < quoted.len() - 1 {
            assert(quoted[i] == a[i - 1]);
        }
    }
    assert(is_quoted(quoted));
    if weak {
        let x = "W/\""@ + a + "\""@;
        assert(x.skip(2) =~= quoted);
        assert(x.take(2) =~= seq!['W', '/']);
        assert forall|i: int| 0 <= i < x.len() implies is_header_char(#[trigger] x[i]) by {
            if i >= 2 {
                assert(x[i] == quoted[i - 2]);
            }
        }
    }
}

/// A header value holds no control characters but the tab.
pub proof fn law_header_values_hold_no_control_characters(s: Seq<char>)
    ensures
        is_header_text(s) <==> forall|i: int|
            0 <= i < s.len() ==> ('\u{20}' <= #[trigger] s[i] <= '\u{7e}' || '\u{80}' <= s[i]
                || s[i] == '\u{9}'),
{
    if is_header_text(s) {
        assert forall|i: int| 0 <= i < s.len() implies ('\u{20}' <= #[trigger] s[i] <= '\u{7e}'
            || '\u{80}' <= s[i] || s[i] == '\u{9}') by {
            assert(is_header_char(s[i]));
        }
    } else {
        let i = choose|i: int| 0 <= i < s.len() && !is_header_char(#[trigger] s[i]);
        assert(!('\u{20}' <= s[i] <= '\u{7e}' || '\u{80}' <= s[i] || s[i] == '\u{9}'));
    }
}

/// An ETag is the size, the seconds and the nanoseconds in hexadecimal, in
/// quotes, with seconds before the epoch as the number with their bit pattern.
/// It is strong.
pub proof fn law_etag_spells_the_file_state(size: u64, unix: i64, nanos: u32)
    ensures
        etag_text(size, unix, nanos) == "\""@ + text::numeral(size as nat, 16) + "-"@
            + text::numeral(
            (if unix >= 0 {
                unix as int
            } else {
                unix + 0x1_0000_0000_0000_0000
            }) as nat,
            16,
        ) + "."@ + text::numeral(nanos as nat, 16) + "\""@,
        is_strong_tag(etag_text(size, unix, nanos)),
{
    lemma_etag_is_strong(size, unix, nanos);
    reveal_strlit("\"");
    reveal_strlit("-");
    reveal_strlit(".");
    assert("\""@ =~= seq!['"'] && "-"@ =~= seq!['-'] && "."@ =~= seq!['.']);
}

/// The conditional headers are evaluated in two steps. `If-Match`, or else
/// `If-Unmodified-Since`, can fail the request, whatever the others say; where
/// it does not, `If-None-Match`, or else `If-Modified-Since`, decides as if it
/// were alone. A header with dates counts only where the one with tags is
/// missing.
pub proof fn law_conditionals_are_evaluated_in_order(
    if_match: Option<Seq<char>>,
    if_unmodified_since: Option<Seq<char>>,
    if_none_match: Option<Seq<char>>,
    if_modified_since: Option<Seq<char>>,
    etag: Seq<char>,
    unix: int,
    other: Option<Seq<char>>,
)
    ensures
        ({
            let all = condition(
                if_match,
                if_unmodified_since,
                if_none_match,
                if_modified_since,
                etag,
                unix,
            );
            let first = condition(if_match, if_unmodified_since, None, None, etag, unix);
            let second = condition(None, None, if_none_match, if_modified_since, etag, unix);
            &&& first != Condition::NotModified
            &&& second != Condition::PreconditionFailed
            &&& first == Condition::PreconditionFailed ==> all == first
            &&& first == Condition::Proceed ==> all == second
            &&& if_match is Some ==> first == condition(if_match, other, None, None, etag, unix)
            &&& if_none_match is Some ==> second == condition(
                None,
                None,
                if_none_match,
                other,
                etag,
                unix,
            )
            &&& condition(None, None, None, None, etag, unix) == Condition::Proceed
        }),
{
}

/// A date header compares with the modification time: a request for an
/// unmodified resource fails where the resource is newer, one for a modified
/// resource is not answered in full where it is not. What is no date is ignored.
pub proof fn law_dates_are_compared_with_the_modification_time(
    raw: Seq<char>,
    etag: Seq<char>,
    unix: int,
)
    ensures
        condition(None, Some(raw), None, None, etag, unix) == match if_unmodified_since_date(raw) {
            Some(date) if date < unix => Condition::PreconditionFailed,
            _ => Condition::Proceed,
        },
        condition(None, None, None, Some(raw), etag, unix) == match if_modified_since_date(raw) {
            Some(date) if unix <= date => Condition::NotModified,
            _ => Condition::Proceed,
        },
{
}

/// A list of tags decides by its tags: a request for a matching resource fails
/// where no tag of the list is the ETag, one for a resource that does not match
/// is not answered in full where some tag is, weak or not. `*` matches every
/// resource. A list without tags is ignored, and so is what cannot be a header
/// value; in a list that is not ASCII no tag matches.
pub proof fn law_tags_are_compared_with_the_etag(raw: Seq<char>, etag: Seq<char>, unix: int)
    requires
        is_strong_tag(etag),
    ensures
        ({
            let any = raw == "*"@;
            let ascii = vstd::utf8::is_ascii_chars(raw);
            let asked = condition(Some(raw), None, None, None, etag, unix);
            let shunned = condition(None, None, Some(raw), None, etag, unix);
            &&& asked == if is_header_text(raw) && !any && tags::holds_tag(raw) && !(ascii
                && tags::list_matches_strongly(raw, etag)) {
                Condition::PreconditionFailed
            } else {
                Condition::Proceed
            }
            &&& shunned == if any || (is_header_text(raw) && ascii && tags::list_matches_weakly(
                raw,
                etag,
            )) {
                Condition::NotModified
            } else {
                Condition::Proceed
            }
        }),
{
    reveal_strlit("*");
    assert("*"@ =~= seq!['*']);
    if raw == "*"@ {
        assert(is_header_text(raw));
    }
}

/// A range is served only to a client whose copy is current: the tag that it
/// sends must be the strong one of the resource, or the date no older. A weak
/// tag never is, nor what is neither tag nor date, and a resource without an
/// HTTP date has no ranges that are asked for so.
pub proof fn law_ranges_go_with_a_current_copy(raw: Seq<char>, etag: Seq<char>, unix: i64)
    requires
        is_strong_tag(etag),
    ensures
        if_range_permits(etag, etag, unix) <==> 0 <= unix < 253_402_300_800,
        is_entity_tag(raw) && raw != etag ==> !if_range_permits(raw, etag, unix),
        text::has_prefix(raw, "W/"@) && is_entity_tag(raw) ==> !if_range_permits(raw, etag, unix),
        !is_entity_tag(raw) ==> (if_range_permits(raw, etag, unix) <==> 0 <= unix
            < 253_402_300_800 && if_modified_since_date(raw) is Some && unix
            <= if_modified_since_date(raw)->0),
{
    reveal_strlit("W/");
    if text::has_prefix(raw, "W/"@) {
        assert(raw.take(2)[0] == 'W');
        assert(raw[0] == 'W');
    }
}

} // verus!
