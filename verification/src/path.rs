//! Resolution of an HTTP request path into a safe, root-relative filesystem
//! path.

use crate::text;
use vstd::prelude::*;
use vstd::slice::slice_subrange;
use vstd::utf8::{encode_utf8, valid_utf8};

verus! {

/// Policy governing which request paths are considered acceptable.
pub struct PathPolicy {
    /// When false, any path segment beginning with `.` is rejected. A `.`
    /// segment is dropped and a `..` segment is rejected in any case.
    pub serve_dotfiles: bool,
    /// Maximum length, in bytes, of the raw path, measured on the untouched
    /// input, before the `?`/`#` split, so callers get a stable limit.
    pub max_path_len: usize,
}

/// Outcome of resolving a raw request path.
pub enum ValidatedPath {
    /// A safe, root-relative path with no leading slash, using forward
    /// slashes, and free of `.`/`..` segments. The caller joins this under
    /// the configured document root.
    Accept { relative: String, trailing_slash: bool },
    Reject(RejectReason),
}

/// What a [`ValidatedPath`] says.
pub enum Resolution {
    Accept { relative: Seq<char>, trailing_slash: bool },
    Reject(RejectReason),
}

impl View for ValidatedPath {
    type V = Resolution;

    open spec fn view(&self) -> Resolution {
        match self {
            ValidatedPath::Accept { relative, trailing_slash } => Resolution::Accept {
                relative: relative@,
                trailing_slash: *trailing_slash,
            },
            ValidatedPath::Reject(reason) => Resolution::Reject(*reason),
        }
    }
}

/// Why a request path was rejected.
#[derive(Debug, Clone, Copy, PartialEq, Eq, Structural)]
pub enum RejectReason {
    BadEncoding,
    Traversal,
    Dotfile,
    TooLong,
    BadCharacter,
}

/// The value of a hexadecimal digit.
pub open spec fn hex_value(b: u8) -> Option<u8> {
    if 48 <= b <= 57 {
        Some((b - 48) as u8)
    } else if 65 <= b <= 70 {
        Some((b - 55) as u8)
    } else if 97 <= b <= 102 {
        Some((b - 87) as u8)
    } else {
        None
    }
}

/// `bytes` with every escape `%XY` replaced by the byte that it stands for. A
/// `%` that two hexadecimal digits do not follow stands for itself.
pub open spec fn percent_decoded(bytes: Seq<u8>) -> Seq<u8>
    decreases bytes.len(),
{
    if bytes.len() == 0 {
        seq![]
    } else if bytes[0] == 37 && bytes.len() >= 3 && hex_value(bytes[1]) is Some && hex_value(
        bytes[2],
    ) is Some {
        seq![(hex_value(bytes[1])->0 * 16 + hex_value(bytes[2])->0) as u8] + percent_decoded(
            bytes.skip(3),
        )
    } else {
        seq![bytes[0]] + percent_decoded(bytes.skip(1))
    }
}

/// The text of a percent-encoded path segment, if it is UTF-8.
pub open spec fn decoded_segment(segment: Seq<char>) -> Option<Seq<char>> {
    let bytes = percent_decoded(encode_utf8(segment));
    if valid_utf8(bytes) {
        Some(vstd::utf8::decode_utf8(bytes))
    } else {
        None
    }
}

/// `percent_encoding::percent_decode` followed by `decode_utf8`: replaces the
/// escapes, and fails exactly where the result is not UTF-8.
#[verifier::external_body]
fn percent_decode_utf8(segment: &str) -> (res: Option<String>)
    ensures
        res is Some <==> valid_utf8(percent_decoded(encode_utf8(segment@))),
        res matches Some(text) ==> text@ == vstd::utf8::decode_utf8(
            percent_decoded(encode_utf8(segment@)),
        ),
{
    let decoded = percent_encoding::percent_decode(segment.as_bytes()).decode_utf8();
    decoded.ok().map(|text| text.into_owned())
}

/// Whether a character may not occur in a path segment.
pub open spec fn is_bad_char(c: char) -> bool {
    c == '\\' || c == ':' || '\u{20}' > c
}

/// The part of a segment before its first dot.
pub open spec fn basename(segment: Seq<char>) -> Seq<char> {
    segment.take(text::position(segment, '.'))
}

/// Whether a name is reserved for a device on Windows.
pub open spec fn is_device_name(name: Seq<char>) -> bool {
    let lower = text::lower_all(name);
    ||| lower == "con"@
    ||| lower == "prn"@
    ||| lower == "aux"@
    ||| lower == "nul"@
    ||| lower.len() == 4 && (lower.take(3) == "com"@ || lower.take(3) == "lpt"@) && '1' <= lower[3]
        <= '9'
}

/// Why a decoded segment other than `.` and `..` is not a name that is
/// served, if it is not.
pub open spec fn name_rejection(segment: Seq<char>, serve_dotfiles: bool) -> Option<RejectReason> {
    if exists|i: int| 0 <= i < segment.len() && is_bad_char(#[trigger] segment[i]) {
        Some(RejectReason::BadCharacter)
    } else if segment.len() > 0 && (segment.last() == '.' || segment.last() == ' ') {
        Some(RejectReason::BadCharacter)
    } else if !serve_dotfiles && segment.len() > 0 && segment[0] == '.' {
        Some(RejectReason::Dotfile)
    } else if is_device_name(basename(segment)) {
        Some(RejectReason::BadCharacter)
    } else {
        None
    }
}

/// Why a raw path segment is rejected, if it is.
pub open spec fn segment_rejection(segment: Seq<char>, serve_dotfiles: bool) -> Option<
    RejectReason,
> {
    if segment.len() == 0 {
        None
    } else {
        match decoded_segment(segment) {
            None => Some(RejectReason::BadEncoding),
            Some(name) => if name.contains('/') || name == seq!['.', '.'] {
                Some(RejectReason::Traversal)
            } else if name == seq!['.'] {
                None
            } else {
                name_rejection(name, serve_dotfiles)
            },
        }
    }
}

/// Why the first rejected segment is rejected, if one is.
pub open spec fn first_rejection(segments: Seq<Seq<char>>, serve_dotfiles: bool) -> Option<
    RejectReason,
>
    decreases segments.len(),
{
    if segments.len() == 0 {
        None
    } else {
        match first_rejection(segments.drop_last(), serve_dotfiles) {
            Some(reason) => Some(reason),
            None => segment_rejection(segments.last(), serve_dotfiles),
        }
    }
}

/// The decoded segments, without the empty ones and the `.` ones.
pub open spec fn kept_segments(segments: Seq<Seq<char>>) -> Seq<Seq<char>>
    decreases segments.len(),
{
    if segments.len() == 0 {
        seq![]
    } else {
        let before = kept_segments(segments.drop_last());
        match decoded_segment(segments.last()) {
            Some(name) if segments.last().len() > 0 && name != seq!['.'] => before.push(name),
            _ => before,
        }
    }
}

/// The segments with a slash between each two.
pub open spec fn joined(segments: Seq<Seq<char>>) -> Seq<char>
    decreases segments.len(),
{
    if segments.len() == 0 {
        seq![]
    } else if segments.len() == 1 {
        segments[0]
    } else {
        joined(segments.drop_last()) + seq!['/'] + segments.last()
    }
}

/// Everything before the first `?` or `#`.
pub open spec fn without_query(raw: Seq<char>) -> Seq<char> {
    let query = text::position(raw, '?');
    let fragment = text::position(raw, '#');
    raw.take(
        if query < fragment {
            query
        } else {
            fragment
        },
    )
}

/// How a raw request path is resolved.
pub open spec fn resolution(raw: Seq<char>, serve_dotfiles: bool, max_path_len: nat) -> Resolution {
    let path = without_query(raw);
    let segments = text::pieces(path, '/');
    if encode_utf8(raw).len() > max_path_len {
        Resolution::Reject(RejectReason::TooLong)
    } else {
        match first_rejection(segments, serve_dotfiles) {
            Some(reason) => Resolution::Reject(reason),
            None => Resolution::Accept {
                relative: joined(kept_segments(segments)),
                trailing_slash: path.len() > 0 && path.last() == '/',
            },
        }
    }
}

proof fn lemma_first_rejection_stays(segments: Seq<Seq<char>>, serve_dotfiles: bool, k: int)
    requires
        0 <= k <= segments.len(),
        first_rejection(segments.take(k), serve_dotfiles) is Some,
    ensures
        first_rejection(segments, serve_dotfiles) == first_rejection(
            segments.take(k),
            serve_dotfiles,
        ),
    decreases segments.len(),
{
    if k < segments.len() {
        assert(segments.drop_last().take(k) =~= segments.take(k));
        lemma_first_rejection_stays(segments.drop_last(), serve_dotfiles, k);
    } else {
        assert(segments.take(k) =~= segments);
    }
}

/// Resolves a raw HTTP request-target path (the `:path` pseudo-header,
/// including any query/fragment) into either a safe relative filesystem path
/// or a rejection reason.
pub fn resolve_request_path(raw_path: &str, policy: &PathPolicy) -> (res: ValidatedPath)
    ensures
        res@ == resolution(raw_path@, policy.serve_dotfiles, policy.max_path_len as nat),
{
    if raw_path.as_bytes().len() > policy.max_path_len {
        return ValidatedPath::Reject(RejectReason::TooLong);
    }
    let raw = text::chars(raw_path);
    let path_only = strip_query_and_fragment(raw.as_slice());
    let trailing_slash = path_only.len() > 0 && path_only[path_only.len() - 1] == '/';

    // Splitting on '/' before percent-decoding is the key safety property:
    // a raw "%2F" stays inside whatever segment it appeared in rather than
    // introducing a new path separator, so it can never be used to smuggle a
    // ".." or absolute path past the segment-level checks below.
    let segments = text::split(path_only, '/');
    let ghost all = text::pieces(path_only@, '/');
    let mut relative = String::new();
    let mut empty = true;
    let mut i: usize = 0;
    assert(all.take(0) =~= seq![]);
    while i < segments.len()
        invariant
            0 <= i <= segments.len(),
            segments@.len() == all.len(),
            forall|j: int| 0 <= j < all.len() ==> (#[trigger] segments@[j])@ == all[j],
            all == text::pieces(without_query(raw_path@), '/'),
            encode_utf8(raw_path@).len() <= policy.max_path_len,
            first_rejection(all.take(i as int), policy.serve_dotfiles) is None,
            relative@ == joined(kept_segments(all.take(i as int))),
            empty == (kept_segments(all.take(i as int)).len() == 0),
        decreases segments.len() - i,
    {
        let segment = segments[i];
        let ghost before = kept_segments(all.take(i as int));
        proof {
            assert(all.take(i + 1).drop_last() =~= all.take(i as int));
            assert(all.take(i + 1).last() == segment@);
            if first_rejection(all.take(i + 1), policy.serve_dotfiles) is Some {
                lemma_first_rejection_stays(all, policy.serve_dotfiles, i + 1);
            }
        }
        i += 1;
        // Drops both the leading empty segment (from the initial '/')
        // and any doubled slashes ("//").
        if segment.len() == 0 {
            continue ;
        }
        let decoded = match percent_decode_segment(segment) {
            Ok(decoded) => decoded,
            Err(reason) => return ValidatedPath::Reject(reason),
        };
        // "." and ".." are special segments handled here, before the
        // general character/name checks below (which would otherwise
        // reject them as ending in '.').
        if is_dots(decoded.as_slice(), 1) {
            continue ;
        }
        if is_dots(decoded.as_slice(), 2) {
            return ValidatedPath::Reject(RejectReason::Traversal);
        }
        if let Some(reason) = reject_reason_for_segment(decoded.as_slice(), policy) {
            return ValidatedPath::Reject(reason);
        }
        if !empty {
            relative.push('/');
        }
        relative.append(text::string_of(decoded.as_slice()).as_str());
        empty = false;
        proof {
            let after = before.push(decoded@);
            assert(after.drop_last() =~= before);
            assert(relative@ =~= joined(after));
        }
    }
    assert(all.take(i as int) =~= all);
    ValidatedPath::Accept { relative, trailing_slash }
}

/// Whether `cs` consists of `count` dots.
fn is_dots(cs: &[char], count: usize) -> (res: bool)
    requires
        count == 1 || count == 2,
    ensures
        count == 1 ==> res == (cs@ == seq!['.']),
        count == 2 ==> res == (cs@ == seq!['.', '.']),
{
    let res = cs.len() == count && cs[0] == '.' && cs[count - 1] == '.';
    proof {
        if res && count == 1 {
            assert(cs@ =~= seq!['.']);
        }
        if res && count == 2 {
            assert(cs@ =~= seq!['.', '.']);
        }
    }
    res
}

/// Strips everything from the first `?` or `#`, whichever comes first.
fn strip_query_and_fragment(raw: &[char]) -> (res: &[char])
    ensures
        res@ == without_query(raw@),
{
    let query = text::find(raw, '?');
    let fragment = text::find(raw, '#');
    let cut: usize = if query < fragment {
        query
    } else {
        fragment
    };
    slice_subrange(raw, 0, cut)
}

/// Percent-decodes a single path segment (no '/' may appear in the input,
/// since the caller splits on '/' first). Rejects any decoded '/' — an
/// encoded slash must not smuggle a new path separator into the segment —
/// and rejects bytes that don't form valid UTF-8. A malformed escape (a `%`
/// not followed by two hex digits) is passed through literally.
fn percent_decode_segment(segment: &[char]) -> (res: Result<Vec<char>, RejectReason>)
    ensures
        match decoded_segment(segment@) {
            None => res == Err::<Vec<char>, RejectReason>(RejectReason::BadEncoding),
            Some(name) => if name.contains('/') {
                res == Err::<Vec<char>, RejectReason>(RejectReason::Traversal)
            } else {
                res matches Ok(decoded) && decoded@ == name
            },
        },
{
    let raw = text::string_of(segment);
    let decoded = match percent_decode_utf8(raw.as_str()) {
        Some(decoded) => text::chars(decoded.as_str()),
        None => return Err(RejectReason::BadEncoding),
    };
    let slash = text::find(decoded.as_slice(), '/');
    proof {
        text::lemma_position(decoded@, '/');
    }
    if slash < decoded.len() {
        assert(decoded@[slash as int] == '/');
        return Err(RejectReason::Traversal);
    }
    Ok(decoded)
}

/// Checks a single decoded, non-empty, non-`.`/`..` segment against all of
/// the character- and name-based rejection rules. `.`/`..` must be handled
/// by the caller before invoking this.
fn reject_reason_for_segment(segment: &[char], policy: &PathPolicy) -> (res: Option<RejectReason>)
    ensures
        res == name_rejection(segment@, policy.serve_dotfiles),
{
    let mut i: usize = 0;
    while i < segment.len()
        invariant
            0 <= i <= segment.len(),
            forall|j: int| 0 <= j < i ==> !is_bad_char(#[trigger] segment@[j]),
        decreases segment.len() - i,
    {
        let c = segment[i];
        if c == '\\' || c == ':' || '\u{20}' > c {
            assert(is_bad_char(segment@[i as int]));
            return Some(RejectReason::BadCharacter);
        }
        i += 1;
    }
    if segment.len() > 0 {
        let last = segment[segment.len() - 1];
        if last == '.' || last == ' ' {
            return Some(RejectReason::BadCharacter);
        }
        if !policy.serve_dotfiles && segment[0] == '.' {
            return Some(RejectReason::Dotfile);
        }
    }
    if is_windows_reserved_name(segment) {
        return Some(RejectReason::BadCharacter);
    }
    None
}

/// Reports whether `segment`'s basename (the part before the first `.`)
/// case-insensitively matches a reserved Windows device name, regardless of
/// any extension(s) that follow (e.g. "con", "CON.txt", "com1.tar.gz").
fn is_windows_reserved_name(segment: &[char]) -> (res: bool)
    ensures
        res == is_device_name(basename(segment@)),
{
    let base = slice_subrange(segment, 0, text::find(segment, '.'));
    let lower = text::to_lower(base);
    let name = lower.as_slice();
    if text::same(name, text::chars("con").as_slice()) || text::same(
        name,
        text::chars("prn").as_slice(),
    ) || text::same(name, text::chars("aux").as_slice()) || text::same(
        name,
        text::chars("nul").as_slice(),
    ) {
        return true;
    }
    if name.len() != 4 {
        return false;
    }
    let device = slice_subrange(name, 0, 3);
    assert(device@ =~= name@.take(3));
    let number = name[3];
    let numbered = '1' <= number && number <= '9';
    numbered && (text::same(device, text::chars("com").as_slice()) || text::same(
        device,
        text::chars("lpt").as_slice(),
    ))
}

/// Whether `s` is a segment that names a plain entry of a directory.
pub open spec fn is_safe_segment(s: Seq<char>, serve_dotfiles: bool) -> bool {
    &&& s.len() > 0
    &&& !s.contains('/')
    &&& s != seq!['.']
    &&& s != seq!['.', '.']
    &&& name_rejection(s, serve_dotfiles) is None
}

proof fn lemma_decoded_nonempty(segment: Seq<char>)
    requires
        segment.len() > 0,
        decoded_segment(segment) is Some,
    ensures
        (decoded_segment(segment)->0).len() > 0,
{
    let bytes = encode_utf8(segment);
    assert(bytes.len() > 0) by {
        vstd::utf8::encode_utf8_first_scalar(segment);
        vstd::utf8::encode_utf8_decode_utf8(segment);
        if bytes.len() == 0 {
            assert(vstd::utf8::decode_utf8(bytes) == Seq::<char>::empty());
        }
    }
    let decoded = percent_decoded(bytes);
    assert(decoded.len() > 0);
    vstd::utf8::decode_utf8_encode_utf8(decoded);
    if vstd::utf8::decode_utf8(decoded).len() == 0 {
        assert(encode_utf8(vstd::utf8::decode_utf8(decoded)) == Seq::<u8>::empty());
    }
}

proof fn lemma_kept_segments_safe(segments: Seq<Seq<char>>, serve_dotfiles: bool)
    requires
        first_rejection(segments, serve_dotfiles) is None,
    ensures
        forall|i: int|
            0 <= i < kept_segments(segments).len() ==> is_safe_segment(
                #[trigger] kept_segments(segments)[i],
                serve_dotfiles,
            ),
    decreases segments.len(),
{
    if segments.len() > 0 {
        let rest = segments.drop_last();
        lemma_kept_segments_safe(rest, serve_dotfiles);
        let before = kept_segments(rest);
        let after = kept_segments(segments);
        assert forall|i: int| 0 <= i < after.len() implies is_safe_segment(
            #[trigger] after[i],
            serve_dotfiles,
        ) by {
            if i < before.len() {
                assert(after[i] == before[i]);
            } else {
                lemma_decoded_nonempty(segments.last());
            }
        }
    }
}

proof fn lemma_pieces_of_joined(segments: Seq<Seq<char>>)
    requires
        segments.len() > 0,
        forall|i: int| 0 <= i < segments.len() ==> !(#[trigger] segments[i]).contains('/'),
    ensures
        text::pieces(joined(segments), '/') == segments,
    decreases segments.len(),
{
    let last = segments.last();
    assert(!segments[segments.len() - 1].contains('/'));
    if segments.len() == 1 {
        text::lemma_pieces_without_separator(last, '/');
        assert(segments =~= seq![last]);
    } else {
        let rest = segments.drop_last();
        assert forall|i: int| 0 <= i < rest.len() implies !(#[trigger] rest[i]).contains('/') by {
            assert(rest[i] == segments[i]);
        }
        lemma_pieces_of_joined(rest);
        text::lemma_pieces_append(joined(rest), last, '/');
        assert(segments =~= rest.push(last));
    }
}

/// A resolved path cannot leave the directory it is joined under: it is empty,
/// or every piece of it between slashes is a non-empty name other than `.` and
/// `..`, without backslashes, colons and control characters, and not a dotfile
/// unless those are served. In particular it does not begin with a slash.
pub proof fn law_resolved_path_stays_below_the_root(
    raw: Seq<char>,
    serve_dotfiles: bool,
    max_path_len: nat,
)
    ensures
        resolution(raw, serve_dotfiles, max_path_len) matches Resolution::Accept {
            relative,
            ..
        } ==> (relative.len() == 0 || (relative[0] != '/' && forall|i: int|
            0 <= i < text::pieces(relative, '/').len() ==> is_safe_segment(
                #[trigger] text::pieces(relative, '/')[i],
                serve_dotfiles,
            ))),
{
    let segments = text::pieces(without_query(raw), '/');
    if let Resolution::Accept { relative, .. } = resolution(raw, serve_dotfiles, max_path_len) {
        lemma_kept_segments_safe(segments, serve_dotfiles);
        let kept = kept_segments(segments);
        if kept.len() > 0 {
            assert forall|i: int| 0 <= i < kept.len() implies !(#[trigger] kept[i]).contains(
                '/',
            ) by {}
            lemma_pieces_of_joined(kept);
            if relative.len() > 0 && relative[0] == '/' {
                text::lemma_position_is(relative, '/', 0);
                assert(text::pieces(relative, '/')[0] == relative.take(0));
                assert(is_safe_segment(kept[0], serve_dotfiles));
            }
        }
    }
}

/// A path that holds `..` as a segment, plainly or percent-encoded, is never
/// resolved.
pub proof fn law_parent_segments_are_rejected(
    raw: Seq<char>,
    serve_dotfiles: bool,
    max_path_len: nat,
    i: int,
)
    requires
        0 <= i < text::pieces(without_query(raw), '/').len(),
        decoded_segment(text::pieces(without_query(raw), '/')[i]) == Some(seq!['.', '.']),
    ensures
        resolution(raw, serve_dotfiles, max_path_len) is Reject,
{
    let segments = text::pieces(without_query(raw), '/');
    let head = segments.take(i + 1);
    assert(head.last() == segments[i]);
    if segments[i].len() == 0 {
        assert(segments[i] =~= seq![]);
        assert(encode_utf8(segments[i]) =~= seq![]);
        assert(percent_decoded(encode_utf8(segments[i])) =~= seq![]);
        assert(decoded_segment(segments[i]) == Some(Seq::<char>::empty()));
        assert(seq!['.', '.'].len() == 2);
    }
    assert(segment_rejection(segments[i], serve_dotfiles) is Some);
    assert(first_rejection(head, serve_dotfiles) is Some);
    lemma_first_rejection_stays(segments, serve_dotfiles, i + 1);
}

proof fn lemma_encode_concat(a: Seq<char>, b: Seq<char>)
    ensures
        encode_utf8(a + b) == encode_utf8(a) + encode_utf8(b),
    decreases a.len(),
{
    if a.len() == 0 {
        assert(a + b =~= b);
        assert(encode_utf8(a) + encode_utf8(b) =~= encode_utf8(b));
    } else {
        lemma_encode_concat(a.drop_first(), b);
        assert((a + b).drop_first() =~= a.drop_first() + b);
        assert((a + b)[0] == a[0]);
        assert(encode_utf8(a + b) =~= encode_utf8(a) + encode_utf8(b));
    }
}

proof fn lemma_no_query(p: Seq<char>)
    requires
        !p.contains('?'),
        !p.contains('#'),
    ensures
        without_query(p) == p,
{
    text::lemma_position(p, '?');
    text::lemma_position(p, '#');
    assert(text::position(p, '?') == p.len()) by {
        if text::position(p, '?') < p.len() {
            assert(p.contains(p[text::position(p, '?')]));
        }
    }
    assert(text::position(p, '#') == p.len()) by {
        if text::position(p, '#') < p.len() {
            assert(p.contains(p[text::position(p, '#')]));
        }
    }
    assert(p.take(p.len() as int) =~= p);
}

proof fn lemma_query_is_cut(p: Seq<char>, q: Seq<char>)
    requires
        !p.contains('?'),
        !p.contains('#'),
        q.len() > 0,
        q[0] == '?' || q[0] == '#',
    ensures
        without_query(p + q) == p,
{
    let raw = p + q;
    let k = p.len() as int;
    let (mark, other) = if q[0] == '?' {
        ('?', '#')
    } else {
        ('#', '?')
    };
    assert(raw[k] == mark);
    assert forall|i: int| 0 <= i < k implies #[trigger] raw[i] != '?' && raw[i] != '#' by {
        assert(p.contains(p[i]));
    }
    text::lemma_position_is(raw, mark, k);
    text::lemma_position(raw, other);
    let n = text::position(raw, other);
    assert(n > k) by {
        if n < raw.len() && n <= k {
            assert(raw[n] == other);
        }
    }
    assert(raw.take(k) =~= p);
}

/// A query or a fragment has no influence on how a path is resolved, other than
/// by the length of the whole.
pub proof fn law_queries_and_fragments_are_ignored(
    p: Seq<char>,
    q: Seq<char>,
    serve_dotfiles: bool,
    max_path_len: nat,
)
    requires
        !p.contains('?'),
        !p.contains('#'),
        q.len() > 0,
        q[0] == '?' || q[0] == '#',
    ensures
        encode_utf8(p + q).len() <= max_path_len ==> resolution(
            p + q,
            serve_dotfiles,
            max_path_len,
        ) == resolution(p, serve_dotfiles, max_path_len),
        resolution(p + q, serve_dotfiles, max_path_len) is Accept ==> resolution(
            p + q,
            serve_dotfiles,
            max_path_len,
        ) == resolution(p, serve_dotfiles, max_path_len),
{
    lemma_encode_concat(p, q);
    lemma_no_query(p);
    lemma_query_is_cut(p, q);
}

/// An accepted path has a trailing slash exactly if what stands before the
/// query and the fragment ends in one.
pub proof fn law_trailing_slash_is_that_of_the_path(
    p: Seq<char>,
    serve_dotfiles: bool,
    max_path_len: nat,
)
    requires
        !p.contains('?'),
        !p.contains('#'),
    ensures
        resolution(p, serve_dotfiles, max_path_len) matches Resolution::Accept {
            trailing_slash,
            ..
        } ==> trailing_slash == (p.len() > 0 && p.last() == '/'),
{
    lemma_no_query(p);
}

proof fn lemma_rejections_are_not_for_length(segments: Seq<Seq<char>>, serve_dotfiles: bool)
    ensures
        first_rejection(segments, serve_dotfiles) != Some(RejectReason::TooLong),
    decreases segments.len(),
{
    if segments.len() > 0 {
        lemma_rejections_are_not_for_length(segments.drop_last(), serve_dotfiles);
    }
}

/// A path is too long exactly if it has more bytes than the limit, query and
/// fragment counted in.
pub proof fn law_length_limit_counts_raw_bytes(
    raw: Seq<char>,
    serve_dotfiles: bool,
    max_path_len: nat,
)
    ensures
        resolution(raw, serve_dotfiles, max_path_len) == Resolution::Reject(RejectReason::TooLong)
            <==> encode_utf8(raw).len() > max_path_len,
{
    lemma_rejections_are_not_for_length(text::pieces(without_query(raw), '/'), serve_dotfiles);
}

proof fn lemma_joined_is_empty(segments: Seq<Seq<char>>)
    requires
        forall|i: int| 0 <= i < segments.len() ==> (#[trigger] segments[i]).len() > 0,
    ensures
        joined(segments).len() == 0 <==> segments.len() == 0,
{
    if segments.len() == 1 {
        assert(segments[0].len() > 0);
    }
}

/// A path is resolved segment by segment. A slash and one more segment keep a
/// rejection; they leave an accepted path as it is where the segment is empty or
/// decodes to `.`, reject it where the segment is bad, and else put the decoded
/// name behind it. The empty path is the root.
pub proof fn law_paths_are_resolved_segment_by_segment(
    p: Seq<char>,
    segment: Seq<char>,
    serve_dotfiles: bool,
    max_path_len: nat,
)
    requires
        !p.contains('?'),
        !p.contains('#'),
        !segment.contains('?'),
        !segment.contains('#'),
        !segment.contains('/'),
        encode_utf8(p + seq!['/'] + segment).len() <= max_path_len,
    ensures
        ({
            let before = resolution(p, serve_dotfiles, max_path_len);
            let after = resolution(p + seq!['/'] + segment, serve_dotfiles, max_path_len);
            let name = decoded_segment(segment)->0;
            match before {
                Resolution::Reject(_) => after == before,
                Resolution::Accept { relative, .. } => if segment.len() == 0 {
                    after == Resolution::Accept { relative, trailing_slash: true }
                } else if decoded_segment(segment) is None {
                    after == Resolution::Reject(RejectReason::BadEncoding)
                } else if name.contains('/') || name == ".."@ {
                    after == Resolution::Reject(RejectReason::Traversal)
                } else if name == "."@ {
                    after == Resolution::Accept { relative, trailing_slash: false }
                } else if name_rejection(name, serve_dotfiles) is Some {
                    after == Resolution::Reject(name_rejection(name, serve_dotfiles)->0)
                } else if relative.len() == 0 {
                    after == Resolution::Accept { relative: name, trailing_slash: false }
                } else {
                    after == Resolution::Accept {
                        relative: relative + "/"@ + name,
                        trailing_slash: false,
                    }
                },
            }
        }),
        resolution(Seq::<char>::empty(), serve_dotfiles, max_path_len) == (Resolution::Accept {
            relative: Seq::<char>::empty(),
            trailing_slash: false,
        }),
{
    reveal_strlit("..");
    reveal_strlit(".");
    reveal_strlit("/");
    assert(".."@ =~= seq!['.', '.']);
    assert("."@ =~= seq!['.']);
    assert("/"@ =~= seq!['/']);
    let empty = Seq::<char>::empty();
    lemma_no_query(empty);
    text::lemma_pieces_without_separator(empty, '/');
    let one = seq![empty];
    assert(one.drop_last() =~= seq![]);
    assert(first_rejection(one.drop_last(), serve_dotfiles) is None);
    assert(first_rejection(one, serve_dotfiles) is None);
    assert(kept_segments(one.drop_last()) =~= seq![]);
    assert(kept_segments(one) =~= seq![]);

    let raw = p + seq!['/'] + segment;
    assert(!raw.contains('?') && !raw.contains('#')) by {
        assert forall|i: int| 0 <= i < raw.len() implies raw[i] != '?' && raw[i] != '#' by {
            if i < p.len() {
                assert(p.contains(p[i]));
            } else if i > p.len() {
                assert(segment.contains(segment[i - p.len() - 1]));
            }
        }
    }
    lemma_no_query(p);
    lemma_no_query(raw);
    lemma_encode_concat(p + seq!['/'], segment);
    lemma_encode_concat(p, seq!['/']);
    text::lemma_pieces_append(p, segment, '/');
    let before = text::pieces(p, '/');
    let after = before.push(segment);
    assert(after.drop_last() =~= before);
    assert(raw.last() == if segment.len() == 0 {
        '/'
    } else {
        segment.last()
    });
    if segment.len() > 0 {
        assert(segment.contains(segment.last()));
    }
    if first_rejection(before, serve_dotfiles) is None {
        lemma_kept_segments_safe(before, serve_dotfiles);
        let kept = kept_segments(before);
        assert forall|i: int| 0 <= i < kept.len() implies (#[trigger] kept[i]).len() > 0 by {
            assert(is_safe_segment(kept[i], serve_dotfiles));
        }
        lemma_joined_is_empty(kept);
        if let Some(name) = decoded_segment(segment) {
            let longer = kept.push(name);
            assert(longer.drop_last() =~= kept);
            assert(longer.len() == 1 ==> longer[0] == name);
        }
    }
}

proof fn lemma_rejection_prepend(segments: Seq<Seq<char>>, serve_dotfiles: bool)
    ensures
        first_rejection(seq![Seq::<char>::empty()] + segments, serve_dotfiles) == first_rejection(
            segments,
            serve_dotfiles,
        ),
        kept_segments(seq![Seq::<char>::empty()] + segments) == kept_segments(segments),
    decreases segments.len(),
{
    let all = seq![Seq::<char>::empty()] + segments;
    if segments.len() > 0 {
        lemma_rejection_prepend(segments.drop_last(), serve_dotfiles);
        assert(all.drop_last() =~= seq![Seq::<char>::empty()] + segments.drop_last());
        assert(all.last() == segments.last());
    } else {
        assert(all.drop_last() =~= segments);
        assert(all.last() == Seq::<char>::empty());
    }
}

/// A path without a leading slash is resolved as with one.
pub proof fn law_leading_slash_makes_no_difference(
    p: Seq<char>,
    serve_dotfiles: bool,
    max_path_len: nat,
)
    requires
        p.len() > 0,
        !p.contains('?'),
        !p.contains('#'),
        encode_utf8(seq!['/'] + p).len() <= max_path_len,
    ensures
        resolution(seq!['/'] + p, serve_dotfiles, max_path_len) == resolution(
            p,
            serve_dotfiles,
            max_path_len,
        ),
{
    let raw = seq!['/'] + p;
    assert(!raw.contains('?') && !raw.contains('#')) by {
        assert forall|i: int| 0 <= i < raw.len() implies raw[i] != '?' && raw[i] != '#' by {
            if i > 0 {
                assert(p.contains(p[i - 1]));
            }
        }
    }
    lemma_no_query(p);
    lemma_no_query(raw);
    lemma_encode_concat(seq!['/'], p);
    text::lemma_position_is(raw, '/', 0);
    assert(raw.take(0) =~= Seq::<char>::empty());
    assert(raw.skip(1) =~= p);
    assert(text::pieces(raw, '/') == seq![Seq::<char>::empty()] + text::pieces(p, '/'));
    lemma_rejection_prepend(text::pieces(p, '/'), serve_dotfiles);
}

/// The names that are reserved for devices on Windows, in lower case.
pub open spec fn device_names() -> Seq<Seq<char>> {
    seq![
        "con"@,
        "prn"@,
        "aux"@,
        "nul"@,
        "com1"@,
        "com2"@,
        "com3"@,
        "com4"@,
        "com5"@,
        "com6"@,
        "com7"@,
        "com8"@,
        "com9"@,
        "lpt1"@,
        "lpt2"@,
        "lpt3"@,
        "lpt4"@,
        "lpt5"@,
        "lpt6"@,
        "lpt7"@,
        "lpt8"@,
        "lpt9"@,
    ]
}

proof fn lemma_numbered_device(lower: Seq<char>)
    requires
        lower.len() == 4,
        '1' <= lower[3] <= '9',
    ensures
        lower.take(3) == "com"@ ==> device_names().contains(lower),
        lower.take(3) == "lpt"@ ==> device_names().contains(lower),
{
    reveal_strlit("com");
    reveal_strlit("lpt");
    reveal_strlit("com1");
    reveal_strlit("com2");
    reveal_strlit("com3");
    reveal_strlit("com4");
    reveal_strlit("com5");
    reveal_strlit("com6");
    reveal_strlit("com7");
    reveal_strlit("com8");
    reveal_strlit("com9");
    reveal_strlit("lpt1");
    reveal_strlit("lpt2");
    reveal_strlit("lpt3");
    reveal_strlit("lpt4");
    reveal_strlit("lpt5");
    reveal_strlit("lpt6");
    reveal_strlit("lpt7");
    reveal_strlit("lpt8");
    reveal_strlit("lpt9");
    let n = lower[3] as u32 - 49;
    assert(lower.take(3)[0] == lower[0] && lower.take(3)[1] == lower[1] && lower.take(3)[2]
        == lower[2]);
    if lower.take(3) == "com"@ {
        let name = device_names()[4 + n];
        assert(name.len() == 4 && name[0] == 'c' && name[1] == 'o' && name[2] == 'm' && name[3]
            == lower[3]);
        assert(lower =~= name);
    }
    if lower.take(3) == "lpt"@ {
        let name = device_names()[13 + n];
        assert(name.len() == 4 && name[0] == 'l' && name[1] == 'p' && name[2] == 't' && name[3]
            == lower[3]);
        assert(lower =~= name);
    }
}

proof fn lemma_device_table(k: int)
    requires
        0 <= k < device_names().len(),
    ensures
        ({
            let name = device_names()[k];
            ||| k < 4
            ||| name.len() == 4 && (name.take(3) == "com"@ || name.take(3) == "lpt"@) && '1'
                <= name[3] <= '9'
        }),
{
    reveal_strlit("com");
    reveal_strlit("lpt");
    reveal_strlit("com1");
    reveal_strlit("com2");
    reveal_strlit("com3");
    reveal_strlit("com4");
    reveal_strlit("com5");
    reveal_strlit("com6");
    reveal_strlit("com7");
    reveal_strlit("com8");
    reveal_strlit("com9");
    reveal_strlit("lpt1");
    reveal_strlit("lpt2");
    reveal_strlit("lpt3");
    reveal_strlit("lpt4");
    reveal_strlit("lpt5");
    reveal_strlit("lpt6");
    reveal_strlit("lpt7");
    reveal_strlit("lpt8");
    reveal_strlit("lpt9");
    let name = device_names()[k];
    if 4 <= k < 13 {
        assert(name.take(3) =~= "com"@);
    } else if k >= 13 {
        assert(name.take(3) =~= "lpt"@);
    }
}

/// The reserved names are those of the table, in any ASCII case.
pub proof fn law_device_names_are_those_of_windows(name: Seq<char>)
    ensures
        is_device_name(name) <==> device_names().contains(text::lower_all(name)),
{
    let lower = text::lower_all(name);
    let all = device_names();
    if is_device_name(name) {
        assert(all[0] == "con"@ && all[1] == "prn"@ && all[2] == "aux"@ && all[3] == "nul"@);
        if lower.len() == 4 && '1' <= lower[3] <= '9' {
            lemma_numbered_device(lower);
        }
    }
    if all.contains(lower) {
        let k = choose|k: int| 0 <= k < all.len() && all[k] == lower;
        lemma_device_table(k);
        assert(k == 0 || k == 1 || k == 2 || k == 3 || k >= 4);
    }
}

/// A name is refused for a backslash, a colon or a control character anywhere,
/// for a dot or a blank at its end, for a dot at its beginning unless dotfiles
/// are served, and for a device name before its first dot; no other name is.
/// `stem` is the part before the first dot, or the whole name.
pub proof fn law_only_plain_names_are_served(
    name: Seq<char>,
    stem: Seq<char>,
    serve_dotfiles: bool,
)
    requires
        name.len() > 0,
        stem.len() <= name.len(),
        name.take(stem.len() as int) == stem,
        !stem.contains('.'),
        stem.len() < name.len() ==> name[stem.len() as int] == '.',
    ensures
        ({
            let bad = name.contains('\\') || name.contains(':') || exists|i: int|
                0 <= i < name.len() && '\u{20}' > #[trigger] name[i];
            let cut = name.last() == '.' || name.last() == ' ';
            name_rejection(name, serve_dotfiles) == if bad || cut {
                Some(RejectReason::BadCharacter)
            } else if name[0] == '.' && !serve_dotfiles {
                Some(RejectReason::Dotfile)
            } else if device_names().contains(text::lower_all(stem)) {
                Some(RejectReason::BadCharacter)
            } else {
                None
            }
        }),
{
    let bad = name.contains('\\') || name.contains(':') || exists|i: int|
        0 <= i < name.len() && '\u{20}' > #[trigger] name[i];
    if bad {
        let i = if name.contains('\\') {
            choose|i: int| 0 <= i < name.len() && name[i] == '\\'
        } else if name.contains(':') {
            choose|i: int| 0 <= i < name.len() && name[i] == ':'
        } else {
            choose|i: int| 0 <= i < name.len() && '\u{20}' > #[trigger] name[i]
        };
        assert(is_bad_char(name[i]));
    }
    if exists|i: int| 0 <= i < name.len() && is_bad_char(#[trigger] name[i]) {
        let i = choose|i: int| 0 <= i < name.len() && is_bad_char(#[trigger] name[i]);
        assert(name.contains(name[i]));
        assert(bad);
    }
    assert forall|i: int| 0 <= i < stem.len() implies #[trigger] name[i] != '.' by {
        assert(stem[i] == name[i]);
        assert(stem.contains(stem[i]));
    }
    text::lemma_position_is(name, '.', stem.len() as int);
    law_device_names_are_those_of_windows(stem);
}

proof fn lemma_plain_bytes_stay(bytes: Seq<u8>)
    requires
        !bytes.contains(37),
    ensures
        percent_decoded(bytes) == bytes,
    decreases bytes.len(),
{
    if bytes.len() > 0 {
        assert(bytes.contains(bytes[0]));
        let rest = bytes.skip(1);
        assert(!rest.contains(37)) by {
            if rest.contains(37) {
                let i = choose|i: int| 0 <= i < rest.len() && rest[i] == 37;
                assert(bytes[i + 1] == 37);
            }
        }
        lemma_plain_bytes_stay(rest);
        assert(seq![bytes[0]] + rest =~= bytes);
    } else {
        assert(percent_decoded(bytes) =~= bytes);
    }
}

/// An ASCII segment without percent signs stands for itself.
pub proof fn law_plain_segments_stand_for_themselves(segment: Seq<char>)
    requires
        vstd::utf8::is_ascii_chars(segment),
        !segment.contains('%'),
    ensures
        decoded_segment(segment) == Some(segment),
{
    let bytes = encode_utf8(segment);
    vstd::utf8::is_ascii_chars_encode_utf8(segment);
    assert(!bytes.contains(37)) by {
        if bytes.contains(37) {
            let i = choose|i: int| 0 <= i < bytes.len() && bytes[i] == 37;
            assert(segment.contains(segment[i]));
            assert(segment[i] as u8 == 37);
            assert('\0' <= segment[i] <= '\u{7f}');
        }
    }
    lemma_plain_bytes_stay(bytes);
    vstd::utf8::encode_utf8_valid_utf8(segment);
    vstd::utf8::encode_utf8_decode_utf8(segment);
}

/// A percent sign and two hexadecimal digits, in any case, stand for one byte.
pub proof fn law_escapes_stand_for_bytes(high: u8, low: u8, x: u8, y: u8, rest: Seq<u8>)
    requires
        high < 16,
        low < 16,
        is_hex_digit_for(x, high),
        is_hex_digit_for(y, low),
    ensures
        percent_decoded(seq![37u8, x, y] + rest) == seq![(16 * high + low) as u8]
            + percent_decoded(rest),
{
    let bytes = seq![37u8, x, y] + rest;
    reveal_strlit("0123456789abcdef");
    reveal_strlit("0123456789ABCDEF");
    assert(hex_value(x) == Some(high));
    assert(hex_value(y) == Some(low));
    assert(bytes.skip(3) =~= rest);
}

/// Whether a byte is the hexadecimal digit for a value, in lower or upper case.
pub open spec fn is_hex_digit_for(b: u8, value: u8) -> bool {
    ||| b as int == "0123456789abcdef"@[value as int] as u32
    ||| b as int == "0123456789ABCDEF"@[value as int] as u32
}

/// What was resolved is shown as it is.
pub proof fn law_resolutions_are_shown_as_they_are(
    relative: String,
    trailing_slash: bool,
    reason: RejectReason,
)
    ensures
        (ValidatedPath::Accept { relative, trailing_slash })@ == (Resolution::Accept {
            relative: relative@,
            trailing_slash,
        }),
        ValidatedPath::Reject(reason)@ == Resolution::Reject(reason),
{
}

/// A byte that begins no escape stands for itself: any but the percent sign, and
/// a percent sign that two hexadecimal digits do not follow.
pub proof fn law_other_bytes_stand_for_themselves(b: u8, rest: Seq<u8>)
    requires
        b != 37 || rest.len() < 2 || hex_value(rest[0]) is None || hex_value(rest[1]) is None,
    ensures
        percent_decoded(seq![b] + rest) == seq![b] + percent_decoded(rest),
{
    let bytes = seq![b] + rest;
    assert(bytes.skip(1) =~= rest);
    if rest.len() >= 2 {
        assert(bytes[1] == rest[0] && bytes[2] == rest[1]);
    }
}

} // verus!
