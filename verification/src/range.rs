//! Parsing and planning of HTTP `Range` requests (RFC 9110 §14), including
//! `multipart/byteranges` assembly for multi-range responses.

use crate::text;
use vstd::prelude::*;
use vstd::slice::{slice_subrange, slice_to_vec};
use vstd::utf8::encode_utf8;

verus! {

/// An inclusive byte range, as used on the wire (`Content-Range: bytes
/// start-end/total`).
#[derive(Debug, Clone, Copy, PartialEq, Eq, Structural)]
pub struct ByteRange {
    pub start: u64,
    pub end: u64,
}

impl ByteRange {
    /// The number of bytes in the range.
    pub open spec fn spec_len(self) -> int {
        self.end - self.start + 1
    }
}

/// The result of planning a `Range` request against a resource of a known
/// length.
#[derive(Debug, Clone, PartialEq, Eq)]
pub enum RangeOutcome {
    /// Serve the whole resource with a 200 response: either there was no
    /// usable range request, or the server chose to fall back rather than
    /// serve a constrained multi-range response.
    Full,
    Single(ByteRange),
    Multi(Vec<ByteRange>),
    /// None of the requested ranges could be satisfied; the caller should
    /// respond 416 with `Content-Range: bytes */total`.
    Unsatisfiable,
}

/// What a [`RangeOutcome`] says, with the ranges of `Multi` as a sequence.
pub enum RangePlan {
    Full,
    Single(ByteRange),
    Multi(Seq<ByteRange>),
    Unsatisfiable,
}

impl View for RangeOutcome {
    type V = RangePlan;

    open spec fn view(&self) -> RangePlan {
        match self {
            RangeOutcome::Full => RangePlan::Full,
            RangeOutcome::Single(range) => RangePlan::Single(*range),
            RangeOutcome::Multi(ranges) => RangePlan::Multi(ranges@),
            RangeOutcome::Unsatisfiable => RangePlan::Unsatisfiable,
        }
    }
}

/// Server-side limits on how much of a multi-range request will be honored.
pub struct RangePolicy {
    pub allow_multi: bool,
    /// Falls back to `Full` when more valid ranges than this are
    /// requested, to bound the amplification a client can trigger with a
    /// pathological `Range` header.
    pub max_parts: usize,
}

/// What a well-formed range-spec asks for.
#[derive(Debug, Clone, Copy, PartialEq, Eq, Structural)]
pub enum SpecResult {
    /// It names no available bytes.
    Unsatisfiable,
    Range(ByteRange),
}

/// The bytes from `first` to `last` that a resource of `total` bytes has.
pub open spec fn available(first: int, last: int, total: int) -> SpecResult {
    if first <= last && first < total {
        SpecResult::Range(
            ByteRange {
                start: first as u64,
                end: if last < total {
                    last as u64
                } else {
                    (total - 1) as u64
                },
            },
        )
    } else {
        SpecResult::Unsatisfiable
    }
}

/// The range-spec `a-b`.
pub open spec fn closed_spec(a: u64, b: u64) -> Seq<char> {
    text::decimal(a as nat) + seq!['-'] + text::decimal(b as nat)
}

/// The range-spec `a-`.
pub open spec fn open_spec(a: u64) -> Seq<char> {
    text::decimal(a as nat) + seq!['-']
}

/// What one range-spec (`first-last`, `first-` or `-suffix`) asks of a
/// resource of `total` bytes, or `None` when it is malformed. A number may be
/// larger than any position.
pub open spec fn requested(spec: Seq<char>, total: u64) -> Option<SpecResult> {
    let dash = text::position(spec, '-');
    let first = spec.take(dash);
    let last = spec.skip(dash + 1);
    if dash == spec.len() {
        None
    } else if dash == 0 {
        if !text::all_digits(last) {
            None
        } else if text::decimal_value(last) >= total {
            Some(
                if text::decimal_value(last) == 0 {
                    SpecResult::Unsatisfiable
                } else {
                    available(0, total - 1, total as int)
                },
            )
        } else {
            Some(available(total - text::decimal_value(last), total - 1, total as int))
        }
    } else if !text::all_digits(first) {
        None
    } else if last.len() == 0 {
        Some(
            available(
                text::decimal_value(first) as int,
                u64::MAX as int,
                total as int,
            ),
        )
    } else if !text::all_digits(last) {
        None
    } else {
        Some(
            available(
                text::decimal_value(first) as int,
                text::decimal_value(last) as int,
                total as int,
            ),
        )
    }
}

/// The pieces that are more than white space, trimmed.
pub open spec fn range_specs(pieces: Seq<Seq<char>>) -> Seq<Seq<char>>
    decreases pieces.len(),
{
    if pieces.len() == 0 {
        seq![]
    } else {
        let before = range_specs(pieces.drop_last());
        let spec = text::trimmed(pieces.last());
        if spec.len() == 0 {
            before
        } else {
            before.push(spec)
        }
    }
}

/// The ranges that the satisfiable specs ask for, in order.
pub open spec fn satisfiable(specs: Seq<Seq<char>>, total: u64) -> Seq<ByteRange>
    decreases specs.len(),
{
    if specs.len() == 0 {
        seq![]
    } else {
        let before = satisfiable(specs.drop_last(), total);
        match requested(specs.last(), total) {
            Some(SpecResult::Range(range)) => before.push(range),
            _ => before,
        }
    }
}

/// Whether some spec is malformed.
pub open spec fn any_malformed(specs: Seq<Seq<char>>, total: u64) -> bool {
    exists|i: int| 0 <= i < specs.len() && requested(#[trigger] specs[i], total) is None
}

/// Whether each range starts after the one before it ends.
pub open spec fn ascending(ranges: Seq<ByteRange>) -> bool {
    forall|i: int|
        0 < i < ranges.len() ==> (#[trigger] ranges[i]).start > ranges[i - 1].end
}

/// How to serve a `Range` header against a resource of `total` bytes.
pub open spec fn range_plan(
    header: Seq<char>,
    total: u64,
    allow_multi: bool,
    max_parts: nat,
) -> RangePlan {
    let specs = range_specs(text::pieces(header.skip("bytes="@.len() as int), ','));
    let ranges = satisfiable(specs, total);
    if !text::has_prefix(header, "bytes="@) || specs.len() == 0 || any_malformed(specs, total) {
        RangePlan::Full
    } else if ranges.len() == 0 {
        RangePlan::Unsatisfiable
    } else if ranges.len() == 1 {
        RangePlan::Single(ranges[0])
    } else if !allow_multi || ranges.len() > max_parts || !ascending(ranges) {
        RangePlan::Full
    } else {
        RangePlan::Multi(ranges)
    }
}

proof fn lemma_range_specs_prefix(pieces: Seq<Seq<char>>, k: int)
    requires
        0 <= k <= pieces.len(),
    ensures
        range_specs(pieces.take(k)).len() <= range_specs(pieces).len(),
        forall|i: int|
            0 <= i < range_specs(pieces.take(k)).len() ==> range_specs(pieces)[i]
                == #[trigger] range_specs(pieces.take(k))[i],
    decreases pieces.len(),
{
    if k < pieces.len() {
        lemma_range_specs_prefix(pieces.drop_last(), k);
        assert(pieces.drop_last().take(k) =~= pieces.take(k));
    } else {
        assert(pieces.take(k) =~= pieces);
    }
}

/// Plans how to serve `range_header` (the raw `Range:` header value,
/// expected to look like `"bytes=0-499"`) against a resource of
/// `total_len` bytes.
pub fn plan_ranges(range_header: &str, total_len: u64, policy: &RangePolicy) -> (res: RangeOutcome)
    ensures
        res@ == range_plan(
            range_header@,
            total_len,
            policy.allow_multi,
            policy.max_parts as nat,
        ),
{
    let header = text::chars(range_header);
    let prefix = text::chars("bytes=");
    if !text::starts_with(header.as_slice(), prefix.as_slice()) {
        return RangeOutcome::Full;
    }
    let list = slice_subrange(header.as_slice(), prefix.len(), header.len());
    let pieces = text::split(list, ',');
    let ghost all = text::pieces(list@, ',');
    assert(list@ =~= range_header@.skip("bytes="@.len() as int));

    let mut valid: Vec<ByteRange> = Vec::new();
    let mut saw_any_spec = false;
    let mut i: usize = 0;
    assert(all.take(0) =~= seq![]);
    while i < pieces.len()
        invariant
            0 <= i <= pieces.len(),
            pieces@.len() == all.len(),
            forall|j: int| 0 <= j < all.len() ==> (#[trigger] pieces@[j])@ == all[j],
            valid@ == satisfiable(range_specs(all.take(i as int)), total_len),
            saw_any_spec == (range_specs(all.take(i as int)).len() > 0),
            !any_malformed(range_specs(all.take(i as int)), total_len),
            all == text::pieces(range_header@.skip("bytes="@.len() as int), ','),
            text::has_prefix(range_header@, "bytes="@),
        decreases pieces.len() - i,
    {
        let spec = text::trim(pieces[i]);
        let ghost before = range_specs(all.take(i as int));
        let ghost after = range_specs(all.take(i + 1));
        proof {
            assert(all.take(i + 1).drop_last() =~= all.take(i as int));
            assert(all.take(i + 1).last() == all[i as int]);
            lemma_range_specs_prefix(all, i + 1);
        }
        if spec.len() > 0 {
            saw_any_spec = true;
            proof {
                assert(after == before.push(spec@));
                assert(after.drop_last() =~= before);
            }
            match parse_one_spec(text::string_of(spec).as_str(), total_len) {
                None => {
                    proof {
                        let specs = range_specs(all);
                        assert(specs[after.len() - 1] == after[after.len() - 1]);
                        assert(requested(specs[after.len() - 1], total_len) is None);
                    }
                    return RangeOutcome::Full;
                },
                Some(SpecResult::Unsatisfiable) => {},
                Some(SpecResult::Range(range)) => valid.push(range),
            }
            proof {
                assert forall|j: int| 0 <= j < after.len() implies requested(
                    #[trigger] after[j],
                    total_len,
                ) is Some by {
                    if j < before.len() {
                        assert(after[j] == before[j]);
                    }
                }
            }
        }
        i += 1;
    }
    assert(all.take(i as int) =~= all);

    if !saw_any_spec {
        return RangeOutcome::Full;
    }
    if valid.len() == 0 {
        return RangeOutcome::Unsatisfiable;
    }
    if valid.len() == 1 {
        return RangeOutcome::Single(valid[0]);
    }
    if !policy.allow_multi || valid.len() > policy.max_parts {
        return RangeOutcome::Full;
    }
    // Require strictly ascending, non-overlapping ranges (in the order
    // requested, with no coalescing): this keeps multi-range responses
    // simple to stream and avoids the amplification that overlapping
    // ranges could otherwise cause.
    if !is_ascending_non_overlapping(valid.as_slice()) {
        return RangeOutcome::Full;
    }
    RangeOutcome::Multi(valid)
}

/// Parses one comma-separated range-spec. Returns `None` when the spec is
/// malformed (which per RFC 9110 means the entire `Range` header must be
/// ignored), `Some(Unsatisfiable)` when it is well-formed but names no
/// available bytes, or `Some(Range(_))` otherwise.
pub fn parse_one_spec(spec: &str, total_len: u64) -> (res: Option<SpecResult>)
    ensures
        res == requested(spec@, total_len),
        // `a-b` asks for the bytes from `a` to `b`, as far as the resource has
        // them.
        forall|a: u64, b: u64|
            spec@ == #[trigger] closed_spec(a, b) ==> res == Some(
                available(a as int, b as int, total_len as int),
            ),
        // `a-` asks for what `a-b` does with the largest position as `b`.
        forall|a: u64|
            spec@ == #[trigger] open_spec(a) ==> res == requested(
                closed_spec(a, u64::MAX),
                total_len,
            ),
{
    proof {
        assert forall|a: u64, b: u64| spec@ == #[trigger] closed_spec(a, b) implies requested(
            spec@,
            total_len,
        ) == Some(available(a as int, b as int, total_len as int)) by {
            law_closed_range_is_cut_to_the_resource(a, b, total_len);
        }
        assert forall|a: u64| spec@ == #[trigger] open_spec(a) implies requested(spec@, total_len)
            == requested(closed_spec(a, u64::MAX), total_len) by {
            lemma_decimal_holds_no_dash(a as nat);
            law_open_range_ends_at_the_largest_position(text::decimal(a as nat), total_len);
        }
    }
    let chars = text::chars(spec);
    let spec = chars.as_slice();
    let dash = text::find(spec, '-');
    if dash == spec.len() {
        return None;
    }
    let first_digits = slice_subrange(spec, 0, dash);
    let last_digits = slice_subrange(spec, dash + 1, spec.len());
    assert(first_digits@ =~= spec@.take(dash as int));
    assert(last_digits@ =~= spec@.skip(dash + 1));
    if dash == 0 {
        return parse_suffix_spec(last_digits, total_len);
    }
    let first_byte_pos: u64 = match parse_position(first_digits) {
        Some(n) => n,
        None => return None,
    };
    if last_digits.len() == 0 {
        return Some(open_ended_spec(first_byte_pos, total_len));
    }
    let last_byte_pos: u64 = match parse_position(last_digits) {
        Some(n) => n,
        None => return None,
    };
    if last_byte_pos < first_byte_pos {
        return Some(SpecResult::Unsatisfiable);
    }
    if total_len == 0 || first_byte_pos >= total_len {
        return Some(SpecResult::Unsatisfiable);
    }
    let end: u64 = if last_byte_pos < total_len - 1 {
        last_byte_pos
    } else {
        total_len - 1
    };
    Some(SpecResult::Range(ByteRange { start: first_byte_pos, end }))
}

/// The number that digits stand for, or the largest position where 64 bits do
/// not hold it: no resource reaches either of them.
fn parse_position(digits: &[char]) -> (res: Option<u64>)
    ensures
        res is Some <==> text::all_digits(digits@),
        res matches Some(n) ==> n == if text::decimal_value(digits@) <= u64::MAX {
            text::decimal_value(digits@)
        } else {
            u64::MAX as nat
        },
{
    if !text::only_digits(digits) {
        return None;
    }
    match text::parse_decimal(digits) {
        Some(n) => Some(n),
        None => Some(u64::MAX),
    }
}

fn parse_suffix_spec(suffix_digits: &[char], total_len: u64) -> (res: Option<SpecResult>)
    ensures
        res is Some <==> text::all_digits(suffix_digits@),
        res matches Some(found) ==> {
            let n = text::decimal_value(suffix_digits@);
            found == if n == 0 {
                SpecResult::Unsatisfiable
            } else if n >= total_len {
                available(0, total_len - 1, total_len as int)
            } else {
                available(total_len - n, total_len - 1, total_len as int)
            }
        },
{
    let suffix_length: u64 = match parse_position(suffix_digits) {
        Some(n) => n,
        None => return None,
    };
    if suffix_length == 0 || total_len == 0 {
        return Some(SpecResult::Unsatisfiable);
    }
    if suffix_length >= total_len {
        return Some(SpecResult::Range(ByteRange { start: 0, end: total_len - 1 }));
    }
    Some(SpecResult::Range(ByteRange { start: total_len - suffix_length, end: total_len - 1 }))
}

fn open_ended_spec(first_byte_pos: u64, total_len: u64) -> (res: SpecResult)
    ensures
        res == available(first_byte_pos as int, u64::MAX as int, total_len as int),
{
    if total_len == 0 || first_byte_pos >= total_len {
        return SpecResult::Unsatisfiable;
    }
    SpecResult::Range(ByteRange { start: first_byte_pos, end: total_len - 1 })
}

fn is_ascending_non_overlapping(ranges: &[ByteRange]) -> (res: bool)
    ensures
        res == ascending(ranges@),
{
    let mut i: usize = 1;
    while i < ranges.len()
        invariant
            1 <= i,
            forall|j: int| 0 < j < i && j < ranges@.len() ==> (#[trigger] ranges@[j]).start
                > ranges@[j - 1].end,
        decreases ranges.len() - i,
    {
        if ranges[i].start <= ranges[i - 1].end {
            assert(ranges@[i as int].start <= ranges@[i - 1].end);
            return false;
        }
        i += 1;
    }
    true
}

/// The `Content-Range` value for `range` of `total` bytes.
pub open spec fn content_range_text(range: ByteRange, total: u64) -> Seq<char> {
    "bytes "@ + text::decimal(range.start as nat) + "-"@ + text::decimal(range.end as nat) + "/"@
        + text::decimal(total as nat)
}

/// The `Content-Range` value of a 416 response for a resource of `total`
/// bytes.
pub open spec fn content_range_unsatisfied_text(total: u64) -> Seq<char> {
    "bytes */"@ + text::decimal(total as nat)
}

/// Formats the `Content-Range` header value for a satisfiable range.
pub fn content_range(range: &ByteRange, total: u64) -> (res: String)
    ensures
        res@ == content_range_text(*range, total),
{
    let mut out = "bytes ".to_owned();
    out.append(text::format_decimal(range.start).as_str());
    out.append("-");
    out.append(text::format_decimal(range.end).as_str());
    out.append("/");
    out.append(text::format_decimal(total).as_str());
    out
}

/// Formats the `Content-Range` header value for a 416 response.
pub fn content_range_unsatisfied(total: u64) -> (res: String)
    ensures
        res@ == content_range_unsatisfied_text(total),
{
    let mut out = "bytes */".to_owned();
    out.append(text::format_decimal(total).as_str());
    out
}

/// One part of a `multipart/byteranges` body: the range it carries, and the
/// exact header bytes (including boundary and CRLF framing) that precede
/// the range's raw file bytes.
pub struct MultipartPart {
    pub range: ByteRange,
    pub header: Vec<u8>,
}

/// The header of part `index` of a multipart body.
pub open spec fn part_header(
    index: int,
    range: ByteRange,
    content_type: Seq<char>,
    total: u64,
    boundary: Seq<char>,
) -> Seq<char> {
    (if index > 0 {
        "\r\n"@
    } else {
        ""@
    }) + "--"@ + boundary + "\r\nContent-Type: "@ + content_type + "\r\nContent-Range: "@
        + content_range_text(range, total) + "\r\n\r\n"@
}

/// The closing boundary of a multipart body.
pub open spec fn closing_boundary(boundary: Seq<char>) -> Seq<char> {
    "\r\n--"@ + boundary + "--\r\n"@
}

/// The length in bytes of the first `count` parts of a multipart body.
pub open spec fn parts_len(
    ranges: Seq<ByteRange>,
    content_type: Seq<char>,
    total: u64,
    boundary: Seq<char>,
    count: nat,
) -> int
    decreases count,
{
    if count == 0 {
        0
    } else {
        parts_len(ranges, content_type, total, boundary, (count - 1) as nat) + encode_utf8(
            part_header(count - 1, ranges[count - 1], content_type, total, boundary),
        ).len() + ranges[count - 1].spec_len()
    }
}

/// The length in bytes of a whole multipart body.
pub open spec fn multipart_len(
    ranges: Seq<ByteRange>,
    content_type: Seq<char>,
    total: u64,
    boundary: Seq<char>,
) -> int {
    parts_len(ranges, content_type, total, boundary, ranges.len()) + encode_utf8(
        closing_boundary(boundary),
    ).len()
}

proof fn lemma_parts_len_grows(
    ranges: Seq<ByteRange>,
    content_type: Seq<char>,
    total: u64,
    boundary: Seq<char>,
    few: nat,
    many: nat,
)
    requires
        few <= many <= ranges.len(),
        forall|i: int|
            0 <= i < ranges.len() ==> (#[trigger] ranges[i]).start <= ranges[i].end,
    ensures
        0 <= parts_len(ranges, content_type, total, boundary, few),
        parts_len(ranges, content_type, total, boundary, few) <= parts_len(
            ranges,
            content_type,
            total,
            boundary,
            many,
        ),
    decreases many,
{
    if few < many {
        lemma_parts_len_grows(ranges, content_type, total, boundary, few, (many - 1) as nat);
    } else if many > 0 {
        lemma_parts_len_grows(
            ranges,
            content_type,
            total,
            boundary,
            (many - 1) as nat,
            (many - 1) as nat,
        );
    }
}

/// Builds the per-part headers, the closing boundary, and the exact total
/// `Content-Length` for a `multipart/byteranges` body covering `ranges` of
/// a `total`-byte resource with content type `content_type` and boundary
/// `boundary`.
///
/// Framing follows RFC 2046 §5.1.1: the first boundary line has no leading
/// CRLF (`"--B\r\n..."`), every subsequent one does
/// (`"\r\n--B\r\n..."`), and the body ends with `"\r\n--B--\r\n"`.
pub fn multipart_parts(
    ranges: &[ByteRange],
    content_type: &str,
    total: u64,
    boundary: &str,
) -> (res: (Vec<MultipartPart>, Vec<u8>, u64))
    requires
        forall|i: int| 0 <= i < ranges@.len() ==> (#[trigger] ranges@[i]).start <= ranges@[i].end,
        multipart_len(ranges@, content_type@, total, boundary@) <= u64::MAX,
    ensures
        multipart_is(res, ranges@, content_type@, total, boundary@),
{
    match try_multipart_parts(ranges, content_type, total, boundary) {
        Some(res) => res,
        None => {
            assert(false);
            (Vec::new(), Vec::new(), 0)
        },
    }
}

/// Whether `res` is the multipart body for `ranges`, with its length.
pub open spec fn multipart_is(
    res: (Vec<MultipartPart>, Vec<u8>, u64),
    ranges: Seq<ByteRange>,
    content_type: Seq<char>,
    total: u64,
    boundary: Seq<char>,
) -> bool {
    &&& res.0@.len() == ranges.len()
    &&& forall|i: int|
        0 <= i < ranges.len() ==> (#[trigger] res.0@[i]).range == ranges[i]
            && res.0@[i].header@ == encode_utf8(
            part_header(i, ranges[i], content_type, total, boundary),
        )
    &&& res.1@ == encode_utf8(closing_boundary(boundary))
    &&& res.2 == multipart_len(ranges, content_type, total, boundary)
}

/// As [`multipart_parts`], or `None` when 64 bits do not hold the length.
pub fn try_multipart_parts(
    ranges: &[ByteRange],
    content_type: &str,
    total: u64,
    boundary: &str,
) -> (res: Option<(Vec<MultipartPart>, Vec<u8>, u64)>)
    requires
        forall|i: int| 0 <= i < ranges@.len() ==> (#[trigger] ranges@[i]).start <= ranges@[i].end,
    ensures
        res is Some <==> multipart_len(ranges@, content_type@, total, boundary@) <= u64::MAX,
        res matches Some(found) ==> multipart_is(found, ranges@, content_type@, total, boundary@),
{
    let mut parts: Vec<MultipartPart> = Vec::new();
    let mut content_length: u64 = 0;
    let mut index: usize = 0;
    while index < ranges.len()
        invariant
            0 <= index <= ranges.len(),
            parts@.len() == index,
            forall|i: int|
                0 <= i < ranges@.len() ==> (#[trigger] ranges@[i]).start <= ranges@[i].end,
            forall|i: int|
                0 <= i < index ==> (#[trigger] parts@[i]).range == ranges@[i]
                    && parts@[i].header@ == encode_utf8(
                    part_header(i, ranges@[i], content_type@, total, boundary@),
                ),
            content_length == parts_len(ranges@, content_type@, total, boundary@, index as nat),
        decreases ranges.len() - index,
    {
        let range = ranges[index];
        let mut header = if index > 0 {
            "\r\n".to_owned()
        } else {
            "".to_owned()
        };
        header.append("--");
        header.append(boundary);
        header.append("\r\nContent-Type: ");
        header.append(content_type);
        header.append("\r\nContent-Range: ");
        header.append(content_range(&range, total).as_str());
        header.append("\r\n\r\n");
        let bytes = slice_to_vec(header.as_str().as_bytes());
        proof {
            lemma_parts_len_grows(
                ranges@,
                content_type@,
                total,
                boundary@,
                (index + 1) as nat,
                ranges@.len(),
            );
        }
        content_length =
        match add_lengths(content_length, bytes.len() as u64, range.end - range.start, 1) {
            Some(sum) => sum,
            None => return None,
        };
        parts.push(MultipartPart { range, header: bytes });
        index += 1;
    }
    let mut closing = "\r\n--".to_owned();
    closing.append(boundary);
    closing.append("--\r\n");
    let terminator = slice_to_vec(closing.as_str().as_bytes());
    match add_lengths(content_length, terminator.len() as u64, 0, 0) {
        Some(sum) => Some((parts, terminator, sum)),
        None => None,
    }
}

/// The sum of four lengths, if 64 bits hold it.
fn add_lengths(a: u64, b: u64, c: u64, d: u64) -> (res: Option<u64>)
    ensures
        res is Some <==> a + b + c + d <= u64::MAX,
        res matches Some(sum) ==> sum == a + b + c + d,
{
    let sum: u128 = a as u128 + b as u128 + c as u128 + d as u128;
    if sum <= u64::MAX as u128 {
        Some(sum as u64)
    } else {
        None
    }
}

/// The number of resource bytes in `ranges`.
pub open spec fn ranges_len(ranges: Seq<ByteRange>) -> int
    decreases ranges.len(),
{
    if ranges.len() == 0 {
        0
    } else {
        ranges_len(ranges.drop_last()) + ranges.last().spec_len()
    }
}

proof fn lemma_satisfiable_is_available(specs: Seq<Seq<char>>, total: u64)
    ensures
        forall|i: int|
            0 <= i < satisfiable(specs, total).len() ==> {
                let range = #[trigger] satisfiable(specs, total)[i];
                range.start <= range.end < total
            },
    decreases specs.len(),
{
    if specs.len() > 0 {
        lemma_satisfiable_is_available(specs.drop_last(), total);
        let before = satisfiable(specs.drop_last(), total);
        let all = satisfiable(specs, total);
        assert forall|i: int| 0 <= i < all.len() implies (#[trigger] all[i]).start <= all[i].end
            < total by {
            if i < before.len() {
                assert(all[i] == before[i]);
            }
        }
    }
}

proof fn lemma_ascending_pairs(ranges: Seq<ByteRange>, i: int, j: int)
    requires
        ascending(ranges),
        forall|k: int| 0 <= k < ranges.len() ==> (#[trigger] ranges[k]).start <= ranges[k].end,
        0 <= i < j < ranges.len(),
    ensures
        ranges[i].end < ranges[j].start,
    decreases j - i,
{
    if i + 1 < j {
        lemma_ascending_pairs(ranges, i, j - 1);
    }
    assert(ranges[j].start > ranges[j - 1].end);
}

proof fn lemma_ascending_len(ranges: Seq<ByteRange>)
    requires
        ascending(ranges),
        ranges.len() > 0,
        forall|k: int| 0 <= k < ranges.len() ==> (#[trigger] ranges[k]).start <= ranges[k].end,
    ensures
        ranges_len(ranges) <= ranges.last().end + 1,
    decreases ranges.len(),
{
    let before = ranges.drop_last();
    if before.len() > 0 {
        assert forall|k: int| 0 < k < before.len() implies (#[trigger] before[k]).start > before[k
            - 1].end by {
            assert(ranges[k].start > ranges[k - 1].end);
        }
        assert forall|k: int| 0 <= k < before.len() implies (#[trigger] before[k]).start
            <= before[k].end by {
            assert(ranges[k].start <= ranges[k].end);
        }
        lemma_ascending_len(before);
        assert(ranges[ranges.len() - 1].start > ranges[ranges.len() - 2].end);
        assert(before.last() == ranges[ranges.len() - 2]);
    } else {
        assert(ranges_len(before) == 0);
    }
}

/// Every planned range lies within the resource. A multi-range plan is made
/// only where the policy allows it, has at least two and at most `max_parts`
/// ranges, and the ranges ascend without overlapping.
pub proof fn law_planned_ranges_lie_within(
    header: Seq<char>,
    total: u64,
    allow_multi: bool,
    max_parts: nat,
)
    ensures
        match range_plan(header, total, allow_multi, max_parts) {
            RangePlan::Single(range) => range.start <= range.end < total,
            RangePlan::Multi(ranges) => {
                &&& allow_multi
                &&& 2 <= ranges.len() <= max_parts
                &&& forall|i: int|
                    0 <= i < ranges.len() ==> (#[trigger] ranges[i]).start <= ranges[i].end
                        < total
                &&& forall|i: int, j: int|
                    0 <= i < j < ranges.len() ==> (#[trigger] ranges[i]).end < (
                    #[trigger] ranges[j]).start
            },
            _ => true,
        },
{
    let specs = range_specs(text::pieces(header.skip("bytes="@.len() as int), ','));
    lemma_satisfiable_is_available(specs, total);
    if let RangePlan::Multi(ranges) = range_plan(header, total, allow_multi, max_parts) {
        assert forall|i: int| 0 <= i < ranges.len() implies (#[trigger] ranges[i]).start
            <= ranges[i].end < total by {
            assert(satisfiable(specs, total)[i] == ranges[i]);
        }
        assert forall|i: int, j: int| 0 <= i < j < ranges.len() implies (#[trigger] ranges[i]).end
            < (#[trigger] ranges[j]).start by {
            lemma_ascending_pairs(ranges, i, j);
        }
    }
}

/// A multi-range plan never asks for more bytes than the resource has.
pub proof fn law_multi_range_does_not_amplify(
    header: Seq<char>,
    total: u64,
    allow_multi: bool,
    max_parts: nat,
)
    ensures
        range_plan(header, total, allow_multi, max_parts) matches RangePlan::Multi(ranges)
            ==> ranges_len(ranges) <= total,
{
    law_planned_ranges_lie_within(header, total, allow_multi, max_parts);
    if let RangePlan::Multi(ranges) = range_plan(header, total, allow_multi, max_parts) {
        assert forall|k: int| 0 <= k < ranges.len() implies (#[trigger] ranges[k]).start
            <= ranges[k].end by {}
        lemma_ascending_len(ranges);
        assert(ranges[ranges.len() - 1].end < total);
    }
}

proof fn lemma_dash_of_spec(first: Seq<char>, last: Seq<char>)
    requires
        !first.contains('-'),
    ensures
        ({
            let spec = first + seq!['-'] + last;
            &&& text::position(spec, '-') == first.len()
            &&& spec.take(first.len() as int) == first
            &&& spec.skip(first.len() as int + 1) == last
        }),
{
    let spec = first + seq!['-'] + last;
    assert forall|i: int| 0 <= i < first.len() implies #[trigger] spec[i] != '-' by {
        assert(first.contains(first[i]));
    }
    text::lemma_position_is(spec, '-', first.len() as int);
    assert(spec.take(first.len() as int) =~= first);
    assert(spec.skip(first.len() as int + 1) =~= last);
}

proof fn lemma_decimal_holds_no_dash(n: nat)
    ensures
        !text::decimal(n).contains('-'),
        text::decimal(n).len() > 0,
{
    text::lemma_numeral_chars(n, 10);
    let s = text::decimal(n);
    assert forall|i: int| 0 <= i < s.len() implies #[trigger] s[i] != '-' by {}
}

/// `a-b` asks for the bytes from `a` to `b`, as far as the resource has them.
pub proof fn law_closed_range_is_cut_to_the_resource(a: u64, b: u64, total: u64)
    ensures
        requested(closed_spec(a, b), total) == Some(available(a as int, b as int, total as int)),
{
    let (first, last) = (text::decimal(a as nat), text::decimal(b as nat));
    lemma_decimal_holds_no_dash(a as nat);
    lemma_decimal_holds_no_dash(b as nat);
    lemma_dash_of_spec(first, last);
    text::lemma_decimal_value_of_decimal(a as nat);
    text::lemma_decimal_value_of_decimal(b as nat);
}

/// `a-` asks for what `a-b` does with the largest position as `b`.
pub proof fn law_open_range_ends_at_the_largest_position(first: Seq<char>, total: u64)
    requires
        first.len() > 0,
        !first.contains('-'),
    ensures
        requested(first + seq!['-'], total) == requested(
            first + seq!['-'] + text::decimal(u64::MAX as nat),
            total,
        ),
{
    let last = text::decimal(u64::MAX as nat);
    lemma_decimal_holds_no_dash(u64::MAX as nat);
    lemma_dash_of_spec(first, seq![]);
    lemma_dash_of_spec(first, last);
    assert(first + seq!['-'] + Seq::<char>::empty() =~= first + seq!['-']);
    text::lemma_decimal_value_of_decimal(u64::MAX as nat);
}

/// A resource without bytes satisfies no range: a header that names any
/// well-formed range is unsatisfiable, every other one is ignored.
pub proof fn law_empty_resource_satisfies_no_range(
    header: Seq<char>,
    allow_multi: bool,
    max_parts: nat,
)
    ensures
        ({
            let plan = range_plan(header, 0, allow_multi, max_parts);
            plan is Full || plan is Unsatisfiable
        }),
{
    law_planned_ranges_lie_within(header, 0, allow_multi, max_parts);
    if let RangePlan::Multi(ranges) = range_plan(header, 0, allow_multi, max_parts) {
        assert(ranges[0].end < 0);
    }
}

proof fn lemma_digits_hold_no_dash(s: Seq<char>)
    requires
        text::all_digits(s),
    ensures
        !s.contains('-'),
{
    assert forall|i: int| 0 <= i < s.len() implies s[i] != '-' by {
        assert(text::is_digit(s[i]));
    }
}

/// `first-last` asks for the bytes from the first position to the last, and
/// `first-` for all from the first on, cut to what the resource has. Nothing is
/// there to be had where the first lies behind the last or behind the end.
pub proof fn law_positions_are_cut_to_the_resource(first: Seq<char>, last: Seq<char>, total: u64)
    requires
        text::all_digits(first),
        text::all_digits(last),
    ensures
        ({
            let (a, b) = (text::decimal_value(first), text::decimal_value(last));
            let closed = requested(first + seq!['-'] + last, total);
            let open = requested(first + seq!['-'], total);
            &&& b < a || a >= total ==> closed == Some(SpecResult::Unsatisfiable)
            &&& a <= b < total ==> closed == Some(
                SpecResult::Range(ByteRange { start: a as u64, end: b as u64 }),
            )
            &&& a < total <= b ==> closed == Some(
                SpecResult::Range(ByteRange { start: a as u64, end: (total - 1) as u64 }),
            )
            &&& a >= total ==> open == Some(SpecResult::Unsatisfiable)
            &&& a < total ==> open == Some(
                SpecResult::Range(ByteRange { start: a as u64, end: (total - 1) as u64 }),
            )
        }),
{
    lemma_digits_hold_no_dash(first);
    lemma_dash_of_spec(first, last);
    lemma_dash_of_spec(first, seq![]);
    assert(first + seq!['-'] + Seq::<char>::empty() =~= first + seq!['-']);
}

/// `-length` asks for that many bytes from the end of the resource, and for the
/// whole of a resource that has no more; for no bytes there is nothing to be
/// had, nor of a resource without any.
pub proof fn law_suffix_counts_from_the_end(length: Seq<char>, total: u64)
    requires
        text::all_digits(length),
    ensures
        ({
            let n = text::decimal_value(length);
            let found = requested(seq!['-'] + length, total);
            &&& n == 0 || total == 0 ==> found == Some(SpecResult::Unsatisfiable)
            &&& 0 < n <= total ==> found == Some(
                SpecResult::Range(
                    ByteRange { start: (total - n) as u64, end: (total - 1) as u64 },
                ),
            )
            &&& n > total > 0 ==> found == Some(
                SpecResult::Range(ByteRange { start: 0, end: (total - 1) as u64 }),
            )
        }),
{
    let empty = Seq::<char>::empty();
    lemma_dash_of_spec(empty, length);
    assert(empty + seq!['-'] + length =~= seq!['-'] + length);
}

/// A spec is well-formed exactly if it is two runs of digits with a dash
/// between them, of which one may be missing.
pub proof fn law_specs_are_digits_around_a_dash(spec: Seq<char>, total: u64)
    ensures
        requested(spec, total) is Some <==> exists|k: int|
            0 <= k < spec.len() && #[trigger] spec[k] == '-' && (k == 0 || text::all_digits(
                spec.take(k),
            )) && (k == spec.len() - 1 || text::all_digits(spec.skip(k + 1))) && spec.len() > 1,
{
    text::lemma_position(spec, '-');
    let dash = text::position(spec, '-');
    if requested(spec, total) is Some {
        assert(spec[dash] == '-');
        assert(spec.len() > 1);
    }
    if exists|k: int|
        0 <= k < spec.len() && #[trigger] spec[k] == '-' && (k == 0 || text::all_digits(
            spec.take(k),
        )) && (k == spec.len() - 1 || text::all_digits(spec.skip(k + 1))) && spec.len() > 1 {
        let k = choose|k: int|
            0 <= k < spec.len() && #[trigger] spec[k] == '-' && (k == 0 || text::all_digits(
                spec.take(k),
            )) && (k == spec.len() - 1 || text::all_digits(spec.skip(k + 1))) && spec.len() > 1;
        assert forall|i: int| 0 <= i < k implies #[trigger] spec[i] != '-' by {
            assert(text::is_digit(spec.take(k)[i]));
        }
        text::lemma_position_is(spec, '-', k);
        if k == spec.len() - 1 {
            assert(spec.skip(k + 1).len() == 0);
        }
    }
}

/// What a well-formed, satisfiable spec asks for.
pub open spec fn satisfied_by(total: u64) -> spec_fn(Seq<char>) -> Option<ByteRange> {
    |spec: Seq<char>|
        match requested(spec, total) {
            Some(SpecResult::Range(range)) => Some(range),
            _ => None,
        }
}

proof fn lemma_specs_of_pieces(pieces: Seq<Seq<char>>)
    ensures
        range_specs(pieces) == pieces.map_values(|p: Seq<char>| text::trimmed(p)).filter(
            |p: Seq<char>| p.len() > 0,
        ),
    decreases pieces.len(),
{
    reveal(Seq::filter);
    let trim = |p: Seq<char>| text::trimmed(p);
    let all = pieces.map_values(trim);
    if pieces.len() > 0 {
        lemma_specs_of_pieces(pieces.drop_last());
        assert(all.drop_last() =~= pieces.drop_last().map_values(trim));
        assert(all.last() == text::trimmed(pieces.last()));
    } else {
        assert(all =~= seq![]);
    }
}

proof fn lemma_ranges_of_specs(specs: Seq<Seq<char>>, total: u64)
    ensures
        satisfiable(specs, total) == specs.filter_map(satisfied_by(total)),
    decreases specs.len(),
{
    reveal(Seq::filter_map);
    if specs.len() > 0 {
        lemma_ranges_of_specs(specs.drop_last(), total);
    }
}

/// How several pieces of a `Range` header are served, given what they ask for.
spec fn plan_of(
    specs: Seq<Seq<char>>,
    ranges: Seq<ByteRange>,
    total: u64,
    allow_multi: bool,
    max_parts: nat,
) -> RangePlan {
    if specs.len() == 0 || any_malformed(specs, total) {
        RangePlan::Full
    } else if ranges.len() == 0 {
        RangePlan::Unsatisfiable
    } else if ranges.len() == 1 {
        RangePlan::Single(ranges[0])
    } else if allow_multi && ranges.len() <= max_parts && ascending(ranges) {
        RangePlan::Multi(ranges)
    } else {
        RangePlan::Full
    }
}

proof fn lemma_range_plan(list: Seq<char>, total: u64, allow_multi: bool, max_parts: nat)
    ensures
        ({
            let specs = text::pieces(list, ',').map_values(
                |p: Seq<char>| text::trimmed(p),
            ).filter(|p: Seq<char>| p.len() > 0);
            let ranges = specs.filter_map(satisfied_by(total));
            range_plan("bytes="@ + list, total, allow_multi, max_parts) == plan_of(
                specs,
                ranges,
                total,
                allow_multi,
                max_parts,
            )
        }),
{
    let header = "bytes="@ + list;
    let n = "bytes="@.len() as int;
    assert(header.skip(n) =~= list);
    assert(header.take(n) =~= "bytes="@);
    let pieces = text::pieces(list, ',');
    lemma_specs_of_pieces(pieces);
    lemma_ranges_of_specs(range_specs(pieces), total);
}

/// A `Range` header is taken apart at its commas, and every piece counts that
/// is more than white space. It is ignored without the unit, without pieces, and
/// with a malformed one. Of the others one range alone is served by itself, and
/// none is unsatisfiable. Several are served together only where that is
/// allowed, they are not too many, and each lies behind all before it; otherwise
/// the whole resource is served.
pub proof fn law_every_range_of_the_header_counts(
    list: Seq<char>,
    total: u64,
    allow_multi: bool,
    max_parts: nat,
)
    ensures
        ({
            let specs = text::pieces(list, ',').map_values(
                |p: Seq<char>| text::trimmed(p),
            ).filter(|p: Seq<char>| p.len() > 0);
            let ranges = specs.filter_map(satisfied_by(total));
            let plan = range_plan("bytes="@ + list, total, allow_multi, max_parts);
            let malformed = exists|i: int|
                0 <= i < specs.len() && requested(#[trigger] specs[i], total) is None;
            let in_order = forall|i: int, j: int|
                0 <= i < j < ranges.len() ==> (#[trigger] ranges[i]).end < (
                #[trigger] ranges[j]).start;
            plan == if specs.len() == 0 || malformed {
                RangePlan::Full
            } else if ranges.len() == 0 {
                RangePlan::Unsatisfiable
            } else if ranges.len() == 1 {
                RangePlan::Single(ranges[0])
            } else if allow_multi && ranges.len() <= max_parts && in_order {
                RangePlan::Multi(ranges)
            } else {
                RangePlan::Full
            }
        }),
{
    lemma_range_plan(list, total, allow_multi, max_parts);
    let specs = text::pieces(list, ',').map_values(|p: Seq<char>| text::trimmed(p)).filter(
        |p: Seq<char>| p.len() > 0,
    );
    let ranges = specs.filter_map(satisfied_by(total));
    lemma_ranges_of_specs(specs, total);
    lemma_satisfiable_is_available(specs, total);
    assert forall|k: int| 0 <= k < ranges.len() implies (#[trigger] ranges[k]).start
        <= ranges[k].end by {}
    if ascending(ranges) {
        assert forall|i: int, j: int| 0 <= i < j < ranges.len() implies (#[trigger] ranges[i]).end
            < (#[trigger] ranges[j]).start by {
            lemma_ascending_pairs(ranges, i, j);
        }
    } else {
        let j = choose|j: int|
            0 < j < ranges.len() && !((#[trigger] ranges[j]).start > ranges[j - 1].end);
        let i = j - 1;
        assert(ranges[i].end >= ranges[j].start);
    }
}

/// A `Range` header in another unit than bytes is ignored.
pub proof fn law_other_units_are_ignored(
    header: Seq<char>,
    total: u64,
    allow_multi: bool,
    max_parts: nat,
)
    requires
        !(header.len() >= 6 && header.take(6) == "bytes="@),
    ensures
        range_plan(header, total, allow_multi, max_parts) == RangePlan::Full,
{
    reveal_strlit("bytes=");
}

/// The `Content-Range` values, with the numbers in decimal.
pub proof fn law_content_range_names_the_bytes(range: ByteRange, total: u64)
    ensures
        content_range_text(range, total) == "bytes "@ + text::decimal(range.start as nat) + "-"@
            + text::decimal(range.end as nat) + "/"@ + text::decimal(total as nat),
        content_range_unsatisfied_text(total) == "bytes */"@ + text::decimal(total as nat),
{
}

/// A part of a multipart body is announced by the boundary, the content type of
/// the file and the bytes that follow. The parts after the first begin on a new
/// line, and the closing boundary ends the body.
pub proof fn law_parts_are_framed_by_the_boundary(
    index: int,
    range: ByteRange,
    content_type: Seq<char>,
    total: u64,
    boundary: Seq<char>,
)
    ensures
        part_header(0, range, content_type, total, boundary) == "--"@ + boundary
            + "\r\nContent-Type: "@ + content_type + "\r\nContent-Range: "@ + ("bytes "@
            + text::decimal(range.start as nat) + "-"@ + text::decimal(range.end as nat) + "/"@
            + text::decimal(total as nat)) + "\r\n\r\n"@,
        index > 0 ==> part_header(index, range, content_type, total, boundary) == "\r\n"@
            + part_header(0, range, content_type, total, boundary),
        closing_boundary(boundary) == "\r\n--"@ + boundary + "--\r\n"@,
{
    reveal_strlit("");
    let named = content_range_text(range, total);
    let head = part_header(0, range, content_type, total, boundary);
    assert(head =~= "--"@ + boundary + "\r\nContent-Type: "@ + content_type
        + "\r\nContent-Range: "@ + named + "\r\n\r\n"@);
    if index > 0 {
        assert(part_header(index, range, content_type, total, boundary) =~= "\r\n"@ + head);
    }
}

/// The length of a multipart body is that of its parts, each with its header,
/// and of the closing boundary.
pub proof fn law_multipart_length_adds_up(
    ranges: Seq<ByteRange>,
    range: ByteRange,
    content_type: Seq<char>,
    total: u64,
    boundary: Seq<char>,
)
    ensures
        multipart_len(seq![], content_type, total, boundary) == encode_utf8(
            closing_boundary(boundary),
        ).len(),
        multipart_len(ranges.push(range), content_type, total, boundary) == multipart_len(
            ranges,
            content_type,
            total,
            boundary,
        ) + encode_utf8(
            part_header(ranges.len() as int, range, content_type, total, boundary),
        ).len() + (range.end - range.start + 1),
{
    lemma_parts_len_prefix(ranges.push(range), ranges, content_type, total, boundary, ranges.len());
}

proof fn lemma_parts_len_prefix(
    a: Seq<ByteRange>,
    b: Seq<ByteRange>,
    content_type: Seq<char>,
    total: u64,
    boundary: Seq<char>,
    count: nat,
)
    requires
        forall|i: int| 0 <= i < count ==> a[i] == b[i],
    ensures
        parts_len(a, content_type, total, boundary, count) == parts_len(
            b,
            content_type,
            total,
            boundary,
            count,
        ),
    decreases count,
{
    if count > 0 {
        lemma_parts_len_prefix(a, b, content_type, total, boundary, (count - 1) as nat);
        assert(a[count - 1] == b[count - 1]);
    }
}

} // verus!
