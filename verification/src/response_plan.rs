//! Top-level response planner.

use crate::message::{push_field, HeaderName, StatusCode};
use crate::range::{
    content_range, content_range_unsatisfied, multipart_parts, plan_ranges, try_multipart_parts,
    ByteRange, MultipartPart, RangeOutcome, RangePlan, RangePolicy,
};
use crate::validators::{
    evaluate_conditionals, format_http_date, if_range_matches, make_etag, Condition,
    ConditionalHeaders, Validators, HTTP_DATE_END,
};
use crate::{message, range, text, validators};
use vstd::prelude::*;
use vstd::utf8::encode_utf8;

verus! {

/// Filesystem facts about the resource being served, as already resolved
/// by the caller.
pub struct FileMeta {
    pub size: u64,
    pub mtime_unix: i64,
    pub mtime_nanos: u32,
    pub is_dir: bool,
}

/// What the caller should send as the response body.
pub enum BodyPlan {
    Empty,
    Whole { len: u64 },
    Segments(Vec<ByteRange>),
    Multipart { parts: Vec<MultipartPart>, terminator: Vec<u8>, content_length: u64 },
}

/// What a [`BodyPlan`] says, with its lists as sequences.
pub enum BodyView {
    Empty,
    Whole { len: u64 },
    Segments(Seq<ByteRange>),
    Multipart { parts: Seq<(ByteRange, Seq<u8>)>, terminator: Seq<u8>, content_length: u64 },
}

/// The parts of a multipart body with the headers as sequences.
pub open spec fn part_views(parts: Seq<MultipartPart>) -> Seq<(ByteRange, Seq<u8>)> {
    parts.map_values(|p: MultipartPart| (p.range, p.header@))
}

impl View for BodyPlan {
    type V = BodyView;

    open spec fn view(&self) -> BodyView {
        match self {
            BodyPlan::Empty => BodyView::Empty,
            BodyPlan::Whole { len } => BodyView::Whole { len: *len },
            BodyPlan::Segments(ranges) => BodyView::Segments(ranges@),
            BodyPlan::Multipart { parts, terminator, content_length } => BodyView::Multipart {
                parts: part_views(parts@),
                terminator: terminator@,
                content_length: *content_length,
            },
        }
    }
}

/// Everything about the request that influences the response plan, beyond
/// the resource's own metadata.
pub struct RequestFacts<'a> {
    pub method_head: bool,
    pub conditionals: ConditionalHeaders<'a>,
    pub range_header: Option<&'a str>,
    pub content_type: String,
    pub etag_enabled: bool,
    pub last_modified_enabled: bool,
    pub range_policy: RangePolicy,
    /// Only used when a multi-range request produces a
    /// `multipart/byteranges` body.
    pub boundary: String,
    /// Set when a pre-compressed variant is being served in place of the
    /// identity representation.
    pub content_encoding: Option<&'static str>,
    /// Forces a `Vary: Accept-Encoding` header even when this particular
    /// response isn't itself encoded, e.g. because content negotiation
    /// happened but the identity representation won.
    pub add_vary: bool,
    /// Value for a `Cache-Control` response header, if configured. Emitted on
    /// 200 and 206 responses.
    pub cache_control: Option<&'a str>,
}

/// What a [`RequestFacts`] says, with every text as a character sequence.
pub struct Facts {
    pub method_head: bool,
    pub if_match: Option<Seq<char>>,
    pub if_unmodified_since: Option<Seq<char>>,
    pub if_none_match: Option<Seq<char>>,
    pub if_modified_since: Option<Seq<char>>,
    pub if_range: Option<Seq<char>>,
    pub range_header: Option<Seq<char>>,
    pub content_type: Seq<char>,
    pub etag_enabled: bool,
    pub last_modified_enabled: bool,
    pub allow_multi: bool,
    pub max_parts: nat,
    pub boundary: Seq<char>,
    pub content_encoding: Option<Seq<char>>,
    pub add_vary: bool,
    pub cache_control: Option<Seq<char>>,
}

impl<'a> View for RequestFacts<'a> {
    type V = Facts;

    open spec fn view(&self) -> Facts {
        Facts {
            method_head: self.method_head,
            if_match: validators::text_of(self.conditionals.if_match),
            if_unmodified_since: validators::text_of(self.conditionals.if_unmodified_since),
            if_none_match: validators::text_of(self.conditionals.if_none_match),
            if_modified_since: validators::text_of(self.conditionals.if_modified_since),
            if_range: validators::text_of(self.conditionals.if_range),
            range_header: validators::text_of(self.range_header),
            content_type: self.content_type@,
            etag_enabled: self.etag_enabled,
            last_modified_enabled: self.last_modified_enabled,
            allow_multi: self.range_policy.allow_multi,
            max_parts: self.range_policy.max_parts as nat,
            boundary: self.boundary@,
            content_encoding: validators::text_of(self.content_encoding),
            add_vary: self.add_vary,
            cache_control: validators::text_of(self.cache_control),
        }
    }
}

/// The fully-decided HTTP response, ready to be written out verbatim.
pub struct ResponsePlan {
    pub status: StatusCode,
    /// Header fields in emission order.
    pub headers: Vec<(HeaderName, String)>,
    pub body: BodyPlan,
}

/// What a [`ResponsePlan`] says.
pub struct Plan {
    pub status: StatusCode,
    pub headers: Seq<(HeaderName, Seq<char>)>,
    pub body: BodyView,
}

impl View for ResponsePlan {
    type V = Plan;

    open spec fn view(&self) -> Plan {
        Plan {
            status: self.status,
            headers: message::fields(self.headers@),
            body: self.body@,
        }
    }
}

/// `value` where `enabled`, else nothing.
pub open spec fn only_if<T>(enabled: bool, value: Option<T>) -> Option<T> {
    if enabled {
        value
    } else {
        None
    }
}

/// The ETag of the resource.
pub open spec fn meta_etag(meta: FileMeta) -> Seq<char> {
    validators::etag_text(meta.size, meta.mtime_unix, meta.mtime_nanos)
}

/// The condition of the request. A conditional on a validator that is not
/// enabled counts as if it had not been sent.
pub open spec fn request_condition(facts: Facts, meta: FileMeta) -> Condition {
    validators::condition(
        only_if(facts.etag_enabled, facts.if_match),
        only_if(facts.last_modified_enabled, facts.if_unmodified_since),
        only_if(facts.etag_enabled, facts.if_none_match),
        only_if(facts.last_modified_enabled, facts.if_modified_since),
        meta_etag(meta),
        meta.mtime_unix as int,
    )
}

/// Whether the `If-Range` header, if any, lets the `Range` header count.
pub open spec fn range_counts(facts: Facts, meta: FileMeta) -> bool {
    match facts.if_range {
        Some(raw) => validators::if_range_permits(raw, meta_etag(meta), meta.mtime_unix),
        None => true,
    }
}

/// The part of the resource that is asked for.
pub open spec fn request_range(facts: Facts, meta: FileMeta, range_counts: bool) -> RangePlan {
    match facts.range_header {
        Some(raw) if range_counts => range::range_plan(
            raw,
            meta.size,
            facts.allow_multi,
            facts.max_parts,
        ),
        _ => RangePlan::Full,
    }
}

/// The header fields that carry the validators.
pub open spec fn validator_fields(facts: Facts, meta: FileMeta) -> Seq<(HeaderName, Seq<char>)> {
    (if facts.etag_enabled {
        seq![(HeaderName::ETag, meta_etag(meta))]
    } else {
        seq![]
    }) + (if facts.last_modified_enabled {
        seq![
            (HeaderName::LastModified, validators::http_date_text(meta.mtime_unix as int)),
        ]
    } else {
        seq![]
    })
}

/// The content-negotiation header fields and, when configured, cache-control.
pub open spec fn encoding_fields(facts: Facts) -> Seq<(HeaderName, Seq<char>)> {
    (match facts.content_encoding {
        Some(encoding) => seq![(HeaderName::ContentEncoding, encoding)],
        None => seq![],
    }) + (if facts.content_encoding is Some || facts.add_vary {
        seq![(HeaderName::Vary, "Accept-Encoding"@)]
    } else {
        seq![]
    }) + (match facts.cache_control {
        Some(value) => seq![(HeaderName::CacheControl, value)],
        None => seq![],
    })
}

/// The body for a GET, nothing for a HEAD.
pub open spec fn body_unless_head(facts: Facts, body: BodyView) -> BodyView {
    if facts.method_head {
        BodyView::Empty
    } else {
        body
    }
}

/// The whole resource, with status 200.
pub open spec fn full_plan(facts: Facts, meta: FileMeta) -> Plan {
    Plan {
        status: StatusCode::OK,
        headers: seq![
            (HeaderName::ContentType, facts.content_type),
            (HeaderName::AcceptRanges, "bytes"@),
        ] + validator_fields(facts, meta) + encoding_fields(facts) + seq![
            (HeaderName::ContentLength, text::decimal(meta.size as nat)),
        ],
        body: body_unless_head(facts, BodyView::Whole { len: meta.size }),
    }
}

/// One range, with status 206.
pub open spec fn single_plan(facts: Facts, meta: FileMeta, range: ByteRange) -> Plan {
    Plan {
        status: StatusCode::PARTIAL_CONTENT,
        headers: seq![
            (HeaderName::ContentType, facts.content_type),
            (HeaderName::AcceptRanges, "bytes"@),
        ] + validator_fields(facts, meta) + encoding_fields(facts) + seq![
            (HeaderName::ContentRange, range::content_range_text(range, meta.size)),
            (HeaderName::ContentLength, text::decimal(range.spec_len() as nat)),
        ],
        body: body_unless_head(facts, BodyView::Segments(seq![range])),
    }
}

/// The parts of a multipart body.
pub open spec fn multipart_views(
    facts: Facts,
    meta: FileMeta,
    ranges: Seq<ByteRange>,
) -> Seq<(ByteRange, Seq<u8>)> {
    Seq::new(
        ranges.len(),
        |i: int|
            (
                ranges[i],
                encode_utf8(
                    range::part_header(
                        i,
                        ranges[i],
                        facts.content_type,
                        meta.size,
                        facts.boundary,
                    ),
                ),
            ),
    )
}

/// The length of a multipart body.
pub open spec fn multipart_total(facts: Facts, meta: FileMeta, ranges: Seq<ByteRange>) -> int {
    range::multipart_len(ranges, facts.content_type, meta.size, facts.boundary)
}

/// Several ranges, with status 206.
pub open spec fn multi_plan(facts: Facts, meta: FileMeta, ranges: Seq<ByteRange>) -> Plan {
    Plan {
        status: StatusCode::PARTIAL_CONTENT,
        headers: seq![(HeaderName::AcceptRanges, "bytes"@)] + validator_fields(facts, meta)
            + encoding_fields(facts) + seq![
            (
                HeaderName::ContentType,
                "multipart/byteranges; boundary="@ + facts.boundary,
            ),
            (
                HeaderName::ContentLength,
                text::decimal(multipart_total(facts, meta, ranges) as nat),
            ),
        ],
        body: body_unless_head(
            facts,
            BodyView::Multipart {
                parts: multipart_views(facts, meta, ranges),
                terminator: encode_utf8(range::closing_boundary(facts.boundary)),
                content_length: multipart_total(facts, meta, ranges) as u64,
            },
        ),
    }
}

/// The response, given how the conditionals came out and which part of the
/// resource is asked for.
pub open spec fn plan_given(
    facts: Facts,
    meta: FileMeta,
    condition: Condition,
    range: RangePlan,
) -> Plan {
    match condition {
        Condition::PreconditionFailed => Plan {
            status: StatusCode::PRECONDITION_FAILED,
            headers: seq![],
            body: BodyView::Empty,
        },
        Condition::NotModified => Plan {
            status: StatusCode::NOT_MODIFIED,
            headers: validator_fields(facts, meta),
            body: BodyView::Empty,
        },
        Condition::Proceed => match range {
            RangePlan::Unsatisfiable => Plan {
                status: StatusCode::RANGE_NOT_SATISFIABLE,
                headers: seq![
                    (
                        HeaderName::ContentRange,
                        range::content_range_unsatisfied_text(meta.size),
                    ),
                ],
                body: BodyView::Empty,
            },
            RangePlan::Single(range) => single_plan(facts, meta, range),
            RangePlan::Multi(ranges) => multi_plan(facts, meta, ranges),
            RangePlan::Full => full_plan(facts, meta),
        },
    }
}

/// The response to a request for a resource.
pub open spec fn planned(facts: Facts, meta: FileMeta) -> Plan {
    plan_given(
        facts,
        meta,
        request_condition(facts, meta),
        request_range(facts, meta, range_counts(facts, meta)),
    )
}

/// The response answers the conditional headers that count: 412 where a
/// precondition fails, 304 where the client's copy is current, and otherwise
/// neither, so 200 where no range is asked for.
pub open spec fn conditionals_are_answered(facts: Facts, meta: FileMeta) -> bool {
    let if_match = only_if(facts.etag_enabled, facts.if_match);
    let if_unmodified_since = only_if(facts.last_modified_enabled, facts.if_unmodified_since);
    let if_none_match = only_if(facts.etag_enabled, facts.if_none_match);
    let if_modified_since = only_if(facts.last_modified_enabled, facts.if_modified_since);
    let etag = meta_etag(meta);
    let unix = meta.mtime_unix as int;
    let status = planned(facts, meta).status;
    let failed = status == StatusCode::PRECONDITION_FAILED;
    let current = status == StatusCode::NOT_MODIFIED;
    &&& !failed && !current && facts.range_header is None ==> status == StatusCode::OK
    // Another tag is refused; the file's own, `*` and what is no tag are not.
    &&& validators::is_one_tag(if_match) ==> (failed <==> if_match != Some(etag))
    &&& if_match == Some(seq!['*']) ==> !failed
    &&& (if_match matches Some(raw) && !raw.contains('"')) ==> !failed
    // A date older than the file is refused, and no other.
    &&& if_match is None ==> forall|date: int| #[trigger]
        validators::is_date_of(if_unmodified_since, date) ==> (failed <==> date < unix)
    // A matching tag and `*` are current; another tag is not.
    &&& if_match is None && if_unmodified_since is None && validators::is_one_tag(if_none_match)
        ==> !failed && (current <==> validators::tags_match_weakly(if_none_match->0, etag))
    &&& if_match is None && if_unmodified_since is None && if_none_match == Some(seq!['*'])
        ==> current
    // A date that is no older than the file is current; an older one is not.
    &&& if_match is None && if_unmodified_since is None && if_none_match is None ==> forall|
        date: int,
    | #[trigger]
        validators::is_date_of(if_modified_since, date) ==> !failed && (current <==> unix <= date)
    // `If-Range` lets the range count for the file's own tag, and for a date
    // that is no older.
    &&& validators::has_http_date(meta.mtime_unix) && facts.if_range is Some
        && validators::is_entity_tag(facts.if_range->0) ==> (range_counts(facts, meta)
        <==> facts.if_range == Some(etag))
    &&& validators::has_http_date(meta.mtime_unix) ==> forall|date: int| #[trigger]
        validators::is_date_of(facts.if_range, date) ==> (range_counts(facts, meta) <==> unix
            <= date)
}

/// Whether `s` is printable ASCII, with tabs.
pub open spec fn is_plain_text(s: Seq<char>) -> bool {
    forall|i: int| 0 <= i < s.len() ==> (' ' <= #[trigger] s[i] <= '~' || s[i] == '\t')
}

/// Whether the content-negotiation values can be header values.
pub open spec fn encoding_values_valid(facts: Facts) -> bool {
    &&& facts.content_encoding matches Some(encoding) ==> is_plain_text(encoding)
    &&& facts.cache_control matches Some(value) ==> validators::is_header_text(value)
}

/// Whether every value of the planned response can be sent: texts that are
/// header values, a modification time with an HTTP date where it is shown, and
/// a body length that 64 bits hold.
pub open spec fn plan_valid(
    facts: Facts,
    meta: FileMeta,
    condition: Condition,
    range: RangePlan,
) -> bool {
    let date_valid = facts.last_modified_enabled ==> validators::has_http_date(meta.mtime_unix);
    match condition {
        Condition::PreconditionFailed => true,
        Condition::NotModified => date_valid,
        Condition::Proceed => match range {
            RangePlan::Unsatisfiable => true,
            RangePlan::Multi(ranges) => {
                &&& date_valid
                &&& encoding_values_valid(facts)
                &&& validators::is_header_text(facts.boundary)
                &&& multipart_total(facts, meta, ranges) <= u64::MAX
            },
            _ => {
                &&& date_valid
                &&& encoding_values_valid(facts)
                &&& validators::is_header_text(facts.content_type)
            },
        },
    }
}

/// Whether the response to a request can be sent.
pub open spec fn response_valid(facts: Facts, meta: FileMeta) -> bool {
    plan_valid(
        facts,
        meta,
        request_condition(facts, meta),
        request_range(facts, meta, range_counts(facts, meta)),
    )
}

/// Whether every range of a plan holds at least one byte, and a single one no
/// more than 64 bits count.
pub open spec fn ranges_nonempty(range: RangePlan) -> bool {
    match range {
        RangePlan::Single(range) => range.start <= range.end && range.spec_len() <= u64::MAX,
        RangePlan::Multi(ranges) => forall|i: int|
            0 <= i < ranges.len() ==> (#[trigger] ranges[i]).start <= ranges[i].end,
        _ => true,
    }
}

/// The conditionals that count: those on validators that the server shows.
///
/// Headers this server doesn't enable are treated as if the client
/// never sent the corresponding conditional at all, rather than being
/// evaluated against a validator the client was never told about.
fn effective_condition(facts: &RequestFacts, meta: &FileMeta, validators: &Validators) -> (res:
    Condition)
    requires
        validators.etag@ == meta_etag(*meta),
        validators.last_modified_unix == meta.mtime_unix,
        validators::is_strong_tag(validators.etag@),
        vstd::utf8::is_ascii_chars(validators.etag@),
    ensures
        res == request_condition(facts@, *meta),
        validators::answers_conditionals(
            only_if(facts.etag_enabled, facts@.if_match),
            only_if(facts.last_modified_enabled, facts@.if_unmodified_since),
            only_if(facts.etag_enabled, facts@.if_none_match),
            only_if(facts.last_modified_enabled, facts@.if_modified_since),
            meta_etag(*meta),
            meta.mtime_unix as int,
            res,
        ),
{
    let effective = ConditionalHeaders {
        if_none_match: if facts.etag_enabled {
            facts.conditionals.if_none_match
        } else {
            None
        },
        if_match: if facts.etag_enabled {
            facts.conditionals.if_match
        } else {
            None
        },
        if_modified_since: if facts.last_modified_enabled {
            facts.conditionals.if_modified_since
        } else {
            None
        },
        if_unmodified_since: if facts.last_modified_enabled {
            facts.conditionals.if_unmodified_since
        } else {
            None
        },
        if_range: facts.conditionals.if_range,
    };
    evaluate_conditionals(&effective, validators)
}

fn meta_validators(meta: &FileMeta) -> (res: Validators)
    ensures
        res.etag@ == meta_etag(*meta),
        res.last_modified_unix == meta.mtime_unix,
        validators::is_strong_tag(res.etag@),
        vstd::utf8::is_ascii_chars(res.etag@),
{
    Validators {
        etag: make_etag(meta.size, meta.mtime_unix, meta.mtime_nanos),
        last_modified_unix: meta.mtime_unix,
    }
}

fn effective_range(facts: &RequestFacts, meta: &FileMeta, validators: &Validators) -> (res:
    RangeOutcome)
    requires
        validators.etag@ == meta_etag(*meta),
        validators.last_modified_unix == meta.mtime_unix,
        validators::is_strong_tag(validators.etag@),
    ensures
        res@ == request_range(facts@, *meta, range_counts(facts@, *meta)),
        ranges_nonempty(res@),
        validators::has_http_date(meta.mtime_unix) && facts@.if_range is Some
            && validators::is_entity_tag(facts@.if_range->0) ==> (range_counts(facts@, *meta)
            <==> facts@.if_range == Some(meta_etag(*meta))),
        validators::has_http_date(meta.mtime_unix) ==> forall|date: int| #[trigger]
            validators::is_date_of(facts@.if_range, date) ==> (range_counts(facts@, *meta)
                <==> meta.mtime_unix <= date),
{
    let range_ok = match facts.conditionals.if_range {
        Some(raw) => if_range_matches(raw, validators),
        None => true,
    };
    plan_range(facts, meta, range_ok)
}

/// Plans the part of the resource to serve, given whether the `Range` header
/// counts.
pub fn plan_range(facts: &RequestFacts, meta: &FileMeta, range_ok: bool) -> (res: RangeOutcome)
    ensures
        res@ == request_range(facts@, *meta, range_ok),
        ranges_nonempty(res@),
{
    proof {
        if let Some(raw) = facts.range_header {
            range::law_planned_ranges_lie_within(
                raw@,
                meta.size,
                facts.range_policy.allow_multi,
                facts.range_policy.max_parts as nat,
            );
        }
    }
    match facts.range_header {
        Some(raw) => {
            if range_ok {
                plan_ranges(raw, meta.size, &facts.range_policy)
            } else {
                RangeOutcome::Full
            }
        },
        None => RangeOutcome::Full,
    }
}

/// Plans the entire response for one request against one already-`stat`-ed
/// file, applying conditional-request and range semantics in RFC 9110
/// order.
pub fn plan_response(facts: &RequestFacts, meta: &FileMeta) -> (res: ResponsePlan)
    requires
        response_valid(facts@, *meta),
    ensures
        res@ == planned(facts@, *meta),
        conditionals_are_answered(facts@, *meta),
{
    let validators = meta_validators(meta);
    let condition = effective_condition(facts, meta, &validators);
    let range = effective_range(facts, meta, &validators);
    plan_for(facts, meta, condition, range)
}

/// Plans the response, given how the conditionals came out and which part of
/// the resource is asked for.
pub fn plan_for(
    facts: &RequestFacts,
    meta: &FileMeta,
    condition: Condition,
    range: RangeOutcome,
) -> (res: ResponsePlan)
    requires
        plan_valid(facts@, *meta, condition, range@),
        ranges_nonempty(range@),
    ensures
        res@ == plan_given(facts@, *meta, condition, range@),
{
    match condition {
        Condition::PreconditionFailed => {
            let res = ResponsePlan {
                status: StatusCode::PRECONDITION_FAILED,
                headers: Vec::new(),
                body: BodyPlan::Empty,
            };
            assert(res@.headers =~= seq![]);
            return res;
        },
        Condition::NotModified => {
            let mut headers: Vec<(HeaderName, String)> = Vec::new();
            push_validator_headers(&mut headers, facts, meta);
            let res = ResponsePlan {
                status: StatusCode::NOT_MODIFIED,
                headers,
                body: BodyPlan::Empty,
            };
            assert(res@.headers =~= validator_fields(facts@, *meta));
            return res;
        },
        Condition::Proceed => {},
    }
    match range {
        RangeOutcome::Unsatisfiable => {
            let mut headers: Vec<(HeaderName, String)> = Vec::new();
            push_field(
                &mut headers,
                HeaderName::ContentRange,
                content_range_unsatisfied(meta.size),
            );
            let res = ResponsePlan {
                status: StatusCode::RANGE_NOT_SATISFIABLE,
                headers,
                body: BodyPlan::Empty,
            };
            assert(res@.headers =~= plan_given(facts@, *meta, condition, range@).headers);
            res
        },
        RangeOutcome::Single(range) => single_response(facts, meta, range),
        RangeOutcome::Multi(ranges) => {
            assert(range@ == RangePlan::Multi(ranges@));
            multi_response(facts, meta, ranges)
        },
        RangeOutcome::Full => full_response(facts, meta),
    }
}

fn full_response(facts: &RequestFacts, meta: &FileMeta) -> (res: ResponsePlan)
    requires
        plan_valid(facts@, *meta, Condition::Proceed, RangePlan::Full),
    ensures
        res@ == full_plan(facts@, *meta),
{
    let mut headers: Vec<(HeaderName, String)> = Vec::new();
    push_field(&mut headers, HeaderName::ContentType, facts.content_type.clone());
    push_field(&mut headers, HeaderName::AcceptRanges, "bytes".to_owned());
    push_validator_headers(&mut headers, facts, meta);
    push_encoding_headers(&mut headers, facts);
    push_field(&mut headers, HeaderName::ContentLength, text::format_decimal(meta.size));
    let body = if facts.method_head {
        BodyPlan::Empty
    } else {
        BodyPlan::Whole { len: meta.size }
    };
    assert(message::fields(headers@) =~= full_plan(facts@, *meta).headers);
    ResponsePlan { status: StatusCode::OK, headers, body }
}

fn single_response(facts: &RequestFacts, meta: &FileMeta, range: ByteRange) -> (res: ResponsePlan)
    requires
        plan_valid(facts@, *meta, Condition::Proceed, RangePlan::Single(range)),
        ranges_nonempty(RangePlan::Single(range)),
    ensures
        res@ == single_plan(facts@, *meta, range),
{
    let mut headers: Vec<(HeaderName, String)> = Vec::new();
    push_field(&mut headers, HeaderName::ContentType, facts.content_type.clone());
    push_field(&mut headers, HeaderName::AcceptRanges, "bytes".to_owned());
    push_validator_headers(&mut headers, facts, meta);
    push_encoding_headers(&mut headers, facts);
    let range_len: u64 = range.end - range.start + 1;
    push_field(&mut headers, HeaderName::ContentRange, content_range(&range, meta.size));
    push_field(&mut headers, HeaderName::ContentLength, text::format_decimal(range_len));
    let body = if facts.method_head {
        BodyPlan::Empty
    } else {
        let mut segments: Vec<ByteRange> = Vec::new();
        segments.push(range);
        assert(segments@ =~= seq![range]);
        BodyPlan::Segments(segments)
    };
    assert(message::fields(headers@) =~= single_plan(facts@, *meta, range).headers);
    ResponsePlan { status: StatusCode::PARTIAL_CONTENT, headers, body }
}

fn multi_response(facts: &RequestFacts, meta: &FileMeta, ranges: Vec<ByteRange>) -> (res:
    ResponsePlan)
    requires
        plan_valid(facts@, *meta, Condition::Proceed, RangePlan::Multi(ranges@)),
        ranges_nonempty(RangePlan::Multi(ranges@)),
    ensures
        res@ == multi_plan(facts@, *meta, ranges@),
{
    let (parts, terminator, content_length) = multipart_parts(
        ranges.as_slice(),
        facts.content_type.as_str(),
        meta.size,
        facts.boundary.as_str(),
    );
    let mut headers: Vec<(HeaderName, String)> = Vec::new();
    push_field(&mut headers, HeaderName::AcceptRanges, "bytes".to_owned());
    push_validator_headers(&mut headers, facts, meta);
    push_encoding_headers(&mut headers, facts);
    let mut multipart_type = "multipart/byteranges; boundary=".to_owned();
    multipart_type.append(facts.boundary.as_str());
    push_field(&mut headers, HeaderName::ContentType, multipart_type);
    push_field(&mut headers, HeaderName::ContentLength, text::format_decimal(content_length));
    assert(part_views(parts@) =~= multipart_views(facts@, *meta, ranges@));
    assert(message::fields(headers@) =~= multi_plan(facts@, *meta, ranges@).headers);
    let body = if facts.method_head {
        BodyPlan::Empty
    } else {
        BodyPlan::Multipart { parts, terminator, content_length }
    };
    ResponsePlan { status: StatusCode::PARTIAL_CONTENT, headers, body }
}

fn push_validator_headers(
    headers: &mut Vec<(HeaderName, String)>,
    facts: &RequestFacts,
    meta: &FileMeta,
)
    requires
        facts.last_modified_enabled ==> validators::has_http_date(meta.mtime_unix),
    ensures
        message::fields(final(headers)@) == message::fields(old(headers)@) + validator_fields(
            facts@,
            *meta,
        ),
{
    let ghost before = message::fields(headers@);
    if facts.etag_enabled {
        push_field(
            headers,
            HeaderName::ETag,
            make_etag(meta.size, meta.mtime_unix, meta.mtime_nanos),
        );
    }
    if facts.last_modified_enabled {
        push_field(headers, HeaderName::LastModified, format_http_date(meta.mtime_unix));
    }
    assert(message::fields(headers@) =~= before + validator_fields(facts@, *meta));
}

/// Pushes content-negotiation headers (content-encoding, vary) and, when
/// configured, cache-control. Called for every cacheable 200/206 response.
fn push_encoding_headers(headers: &mut Vec<(HeaderName, String)>, facts: &RequestFacts)
    ensures
        message::fields(final(headers)@) == message::fields(old(headers)@) + encoding_fields(
            facts@,
        ),
{
    let ghost before = message::fields(headers@);
    if let Some(content_encoding) = facts.content_encoding {
        push_field(headers, HeaderName::ContentEncoding, content_encoding.to_owned());
    }
    if facts.content_encoding.is_some() || facts.add_vary {
        push_field(headers, HeaderName::Vary, "Accept-Encoding".to_owned());
    }
    if let Some(cache_control) = facts.cache_control {
        push_field(headers, HeaderName::CacheControl, cache_control.to_owned());
    }
    assert(message::fields(headers@) =~= before + encoding_fields(facts@));
}

/// Plans the response as [`plan_response`] does, or returns `None` when some
/// value of it could not be sent.
pub fn try_plan_response(facts: &RequestFacts, meta: &FileMeta) -> (res: Option<ResponsePlan>)
    ensures
        res is Some <==> response_valid(facts@, *meta),
        res matches Some(plan) ==> plan@ == planned(facts@, *meta),
        conditionals_are_answered(facts@, *meta),
{
    let validators = meta_validators(meta);
    let condition = effective_condition(facts, meta, &validators);
    let range = effective_range(facts, meta, &validators);
    if is_plan_valid(facts, meta, condition, &range) {
        Some(plan_response(facts, meta))
    } else {
        None
    }
}

/// Whether every value of the planned response can be sent.
pub fn is_plan_valid(
    facts: &RequestFacts,
    meta: &FileMeta,
    condition: Condition,
    range: &RangeOutcome,
) -> (res: bool)
    requires
        ranges_nonempty(range@),
    ensures
        res == plan_valid(facts@, *meta, condition, range@),
{
    let date_valid = !facts.last_modified_enabled || (meta.mtime_unix >= 0
        && (meta.mtime_unix as u64) < HTTP_DATE_END);
    match condition {
        Condition::PreconditionFailed => true,
        Condition::NotModified => date_valid,
        Condition::Proceed => match range {
            RangeOutcome::Unsatisfiable => true,
            RangeOutcome::Multi(ranges) => {
                let list = ranges.as_slice();
                assert(ranges_nonempty(RangePlan::Multi(list@)));
                date_valid && are_encoding_values_valid(facts) && validators::check_header_text(
                    facts.boundary.as_str(),
                ) && try_multipart_parts(
                    list,
                    facts.content_type.as_str(),
                    meta.size,
                    facts.boundary.as_str(),
                ).is_some()
            },
            RangeOutcome::Single(_) | RangeOutcome::Full => {
                date_valid && are_encoding_values_valid(facts) && validators::check_header_text(
                    facts.content_type.as_str(),
                )
            },
        },
    }
}

fn are_encoding_values_valid(facts: &RequestFacts) -> (res: bool)
    ensures
        res == encoding_values_valid(facts@),
{
    let encoding_valid = match facts.content_encoding {
        Some(encoding) => check_plain_text(encoding),
        None => true,
    };
    let cache_control_valid = match facts.cache_control {
        Some(value) => validators::check_header_text(value),
        None => true,
    };
    encoding_valid && cache_control_valid
}

fn check_plain_text(s: &str) -> (res: bool)
    ensures
        res == is_plain_text(s@),
{
    let cs = text::chars(s);
    let mut i: usize = 0;
    while i < cs.len()
        invariant
            0 <= i <= cs.len(),
            cs@ == s@,
            forall|j: int| 0 <= j < i ==> (' ' <= #[trigger] cs@[j] <= '~' || cs@[j] == '\t'),
        decreases cs.len() - i,
    {
        let c = cs[i];
        if !((' ' <= c && c <= '~') || c == '\t') {
            assert(!(' ' <= s@[i as int] <= '~' || s@[i as int] == '\t'));
            return false;
        }
        i += 1;
    }
    true
}

/// The number of bytes in a planned body.
pub open spec fn body_len(body: BodyView) -> int {
    match body {
        BodyView::Empty => 0,
        BodyView::Whole { len } => len as int,
        BodyView::Segments(ranges) => range::ranges_len(ranges),
        BodyView::Multipart { parts, terminator, .. } => framed_len(parts) + terminator.len(),
    }
}

/// The number of bytes in the parts of a multipart body, headers and file
/// bytes together.
pub open spec fn framed_len(parts: Seq<(ByteRange, Seq<u8>)>) -> int
    decreases parts.len(),
{
    if parts.len() == 0 {
        0
    } else {
        framed_len(parts.drop_last()) + parts.last().1.len() + parts.last().0.spec_len()
    }
}

proof fn lemma_framed_len(facts: Facts, meta: FileMeta, ranges: Seq<ByteRange>, count: nat)
    requires
        count <= ranges.len(),
    ensures
        framed_len(multipart_views(facts, meta, ranges).take(count as int)) == range::parts_len(
            ranges,
            facts.content_type,
            meta.size,
            facts.boundary,
            count,
        ),
    decreases count,
{
    let parts = multipart_views(facts, meta, ranges);
    if count > 0 {
        lemma_framed_len(facts, meta, ranges, (count - 1) as nat);
        assert(parts.take(count as int).drop_last() =~= parts.take(count - 1));
        assert(parts.take(count as int).last() == parts[count - 1]);
    }
}

/// The `Content-Length` of a planned response is the number of bytes in the
/// body that a GET receives. Responses with statuses 200 and 206 carry it as
/// their last header field.
pub proof fn law_content_length_is_body_length(
    facts: Facts,
    meta: FileMeta,
    condition: Condition,
    range_counts: bool,
)
    requires
        !facts.method_head,
        plan_valid(facts, meta, condition, request_range(facts, meta, range_counts)),
    ensures
        ({
            let plan = plan_given(
                facts,
                meta,
                condition,
                request_range(facts, meta, range_counts),
            );
            plan.status == StatusCode::OK || plan.status == StatusCode::PARTIAL_CONTENT
                ==> plan.headers.last() == (
                HeaderName::ContentLength,
                text::decimal(body_len(plan.body) as nat),
            )
        }),
{
    let range = request_range(facts, meta, range_counts);
    if condition == Condition::Proceed {
        match range {
            RangePlan::Single(r) => {
                let one = seq![r];
                assert(one.drop_last() =~= Seq::<ByteRange>::empty());
                assert(range::ranges_len(one.drop_last()) == 0);
                assert(range::ranges_len(one) == r.spec_len());
            },
            RangePlan::Multi(ranges) => {
                lemma_framed_len(facts, meta, ranges, ranges.len());
                let parts = multipart_views(facts, meta, ranges);
                assert(parts.take(ranges.len() as int) =~= parts);
            },
            _ => {},
        }
    }
}

/// A HEAD is answered with the status and the header fields of the GET, and
/// without a body.
pub proof fn law_head_mirrors_get(facts: Facts, meta: FileMeta)
    ensures
        ({
            let head = planned(Facts { method_head: true, ..facts }, meta);
            let get = planned(Facts { method_head: false, ..facts }, meta);
            &&& head.status == get.status
            &&& head.headers == get.headers
            &&& head.body is Empty
        }),
{
    let head = planned(Facts { method_head: true, ..facts }, meta);
    let get = planned(Facts { method_head: false, ..facts }, meta);
    assert(head.headers =~= get.headers);
}

/// Every file byte that a planned body names exists in the file.
pub proof fn law_body_lies_within_the_file(facts: Facts, meta: FileMeta)
    ensures
        match planned(facts, meta).body {
            BodyView::Empty => true,
            BodyView::Whole { len } => len == meta.size,
            BodyView::Segments(ranges) => forall|i: int|
                0 <= i < ranges.len() ==> (#[trigger] ranges[i]).start <= ranges[i].end
                    < meta.size,
            BodyView::Multipart { parts, .. } => forall|i: int|
                0 <= i < parts.len() ==> (#[trigger] parts[i]).0.start <= parts[i].0.end
                    < meta.size,
        },
{
    if let Some(raw) = facts.range_header {
        range::law_planned_ranges_lie_within(raw, meta.size, facts.allow_multi, facts.max_parts);
    }
}

/// Only statuses 200 and 206 come with a body.
pub proof fn law_other_statuses_have_no_body(facts: Facts, meta: FileMeta)
    ensures
        ({
            let plan = planned(facts, meta);
            plan.status == StatusCode::OK || plan.status == StatusCode::PARTIAL_CONTENT
                || plan.body is Empty
        }),
{
}

/// A conditional header on a validator that the server does not show has no
/// influence.
pub proof fn law_disabled_validators_are_ignored(
    facts: Facts,
    meta: FileMeta,
    tags: (Option<Seq<char>>, Option<Seq<char>>),
    dates: (Option<Seq<char>>, Option<Seq<char>>),
)
    ensures
        !facts.etag_enabled ==> planned(
            Facts { if_match: tags.0, if_none_match: tags.1, ..facts },
            meta,
        ) == planned(facts, meta),
        !facts.last_modified_enabled ==> planned(
            Facts { if_unmodified_since: dates.0, if_modified_since: dates.1, ..facts },
            meta,
        ) == planned(facts, meta),
{
    let a = Facts { if_match: tags.0, if_none_match: tags.1, ..facts };
    let b = Facts { if_unmodified_since: dates.0, if_modified_since: dates.1, ..facts };
    assert(validator_fields(a, meta) =~= validator_fields(facts, meta));
    assert(validator_fields(b, meta) =~= validator_fields(facts, meta));
    assert(encoding_fields(a) =~= encoding_fields(facts));
    assert(encoding_fields(b) =~= encoding_fields(facts));
    if let RangePlan::Multi(ranges) = request_range(facts, meta, range_counts(facts, meta)) {
        assert(multipart_views(a, meta, ranges) =~= multipart_views(facts, meta, ranges));
        assert(multipart_views(b, meta, ranges) =~= multipart_views(facts, meta, ranges));
    }
}

/// Where a header field has a value in a response.
pub open spec fn shows(plan: Plan, name: HeaderName, value: Seq<char>) -> bool {
    plan.headers.contains((name, value))
}

/// Whether a response has a header field.
pub open spec fn has_field(plan: Plan, name: HeaderName) -> bool {
    exists|i: int| 0 <= i < plan.headers.len() && (#[trigger] plan.headers[i]).0 == name
}

/// Whether the fields carry neither validators nor what is negotiated.
spec fn are_plain(fields: Seq<(HeaderName, Seq<char>)>) -> bool {
    forall|i: int|
        0 <= i < fields.len() ==> (#[trigger] fields[i]).0 != HeaderName::ETag && fields[i].0
            != HeaderName::LastModified && fields[i].0 != HeaderName::CacheControl && fields[i].0
            != HeaderName::ContentEncoding
}

/// Whether a response that carries content shows what it should.
spec fn content_fields_shown(plan: Plan, facts: Facts, meta: FileMeta) -> bool {
    &&& validators_shown(plan, facts, meta)
    &&& facts.cache_control is Some ==> shows(
        plan,
        HeaderName::CacheControl,
        facts.cache_control->0,
    )
    &&& has_field(plan, HeaderName::CacheControl) ==> facts.cache_control is Some
    &&& facts.content_encoding is Some ==> shows(
        plan,
        HeaderName::ContentEncoding,
        facts.content_encoding->0,
    ) && shows(plan, HeaderName::Vary, "Accept-Encoding"@)
    &&& has_field(plan, HeaderName::ContentEncoding) ==> facts.content_encoding is Some
}

/// Whether a response shows exactly the validators that are enabled.
pub open spec fn validators_shown(plan: Plan, facts: Facts, meta: FileMeta) -> bool {
    &&& facts.etag_enabled ==> shows(plan, HeaderName::ETag, meta_etag(meta))
    &&& facts.last_modified_enabled ==> shows(
        plan,
        HeaderName::LastModified,
        validators::http_date_text(meta.mtime_unix as int),
    )
    &&& has_field(plan, HeaderName::ETag) ==> facts.etag_enabled
    &&& has_field(plan, HeaderName::LastModified) ==> facts.last_modified_enabled
}

proof fn lemma_validator_names(facts: Facts, meta: FileMeta)
    ensures
        ({
            let fields = validator_fields(facts, meta);
            &&& facts.etag_enabled ==> fields.len() > 0 && fields[0] == (
                HeaderName::ETag,
                meta_etag(meta),
            )
            &&& facts.last_modified_enabled ==> fields.len() > 0 && fields[fields.len() - 1] == (
                HeaderName::LastModified,
                validators::http_date_text(meta.mtime_unix as int),
            )
            &&& forall|i: int|
                0 <= i < fields.len() ==> {
                    let name = (#[trigger] fields[i]).0;
                    ||| name == HeaderName::ETag && facts.etag_enabled
                    ||| name == HeaderName::LastModified && facts.last_modified_enabled
                }
        }),
{
}

proof fn lemma_encoding_names(facts: Facts)
    ensures
        ({
            let fields = encoding_fields(facts);
            &&& facts.cache_control is Some ==> fields.len() > 0 && fields[fields.len() - 1] == (
                HeaderName::CacheControl,
                facts.cache_control->0,
            )
            &&& forall|i: int|
                0 <= i < fields.len() ==> {
                    let name = (#[trigger] fields[i]).0;
                    &&& name != HeaderName::ETag
                    &&& name != HeaderName::LastModified
                    &&& name == HeaderName::CacheControl ==> facts.cache_control is Some
                    &&& name == HeaderName::ContentEncoding ==> facts.content_encoding is Some
                }
            &&& facts.content_encoding is Some ==> fields.len() > 1 && fields[0] == (
                HeaderName::ContentEncoding,
                facts.content_encoding->0,
            ) && fields[1] == (HeaderName::Vary, "Accept-Encoding"@)
        }),
{
}

proof fn lemma_content_fields_shown(
    plan: Plan,
    facts: Facts,
    meta: FileMeta,
    head: Seq<(HeaderName, Seq<char>)>,
    tail: Seq<(HeaderName, Seq<char>)>,
)
    requires
        plan.headers == head + validator_fields(facts, meta) + encoding_fields(facts) + tail,
        are_plain(head),
        are_plain(tail),
    ensures
        content_fields_shown(plan, facts, meta),
{
    lemma_validator_names(facts, meta);
    lemma_encoding_names(facts);
    let shown = validator_fields(facts, meta);
    let negotiated = encoding_fields(facts);
    let (a, b, c) = (head.len() as int, shown.len() as int, negotiated.len() as int);
    assert(facts.etag_enabled ==> plan.headers[a] == shown[0]);
    assert(facts.last_modified_enabled ==> plan.headers[a + b - 1] == shown[b - 1]);
    assert(facts.cache_control is Some ==> plan.headers[a + b + c - 1] == negotiated[c - 1]);
    assert(facts.content_encoding is Some ==> plan.headers[a + b] == negotiated[0]
        && plan.headers[a + b + 1] == negotiated[1]);
    assert forall|i: int| 0 <= i < plan.headers.len() implies {
        let name = (#[trigger] plan.headers[i]).0;
        &&& name == HeaderName::ETag ==> facts.etag_enabled
        &&& name == HeaderName::LastModified ==> facts.last_modified_enabled
        &&& name == HeaderName::CacheControl ==> facts.cache_control is Some
        &&& name == HeaderName::ContentEncoding ==> facts.content_encoding is Some
    } by {
        if i < a {
            assert(plan.headers[i] == head[i]);
        } else if i < a + b {
            assert(plan.headers[i] == shown[i - a]);
        } else if i < a + b + c {
            assert(plan.headers[i] == negotiated[i - a - b]);
        } else {
            assert(plan.headers[i] == tail[i - a - b - c]);
        }
    }
}

proof fn lemma_full_plan_fields(facts: Facts, meta: FileMeta)
    ensures
        content_fields_shown(full_plan(facts, meta), facts, meta),
{
    let head = seq![
        (HeaderName::ContentType, facts.content_type),
        (HeaderName::AcceptRanges, "bytes"@),
    ];
    let tail = seq![(HeaderName::ContentLength, text::decimal(meta.size as nat))];
    lemma_content_fields_shown(full_plan(facts, meta), facts, meta, head, tail);
}

proof fn lemma_single_plan_fields(facts: Facts, meta: FileMeta, range: ByteRange)
    ensures
        content_fields_shown(single_plan(facts, meta, range), facts, meta),
{
    let head = seq![
        (HeaderName::ContentType, facts.content_type),
        (HeaderName::AcceptRanges, "bytes"@),
    ];
    let tail = seq![
        (HeaderName::ContentRange, range::content_range_text(range, meta.size)),
        (HeaderName::ContentLength, text::decimal(range.spec_len() as nat)),
    ];
    lemma_content_fields_shown(single_plan(facts, meta, range), facts, meta, head, tail);
}

proof fn lemma_multi_plan_fields(facts: Facts, meta: FileMeta, ranges: Seq<ByteRange>)
    ensures
        content_fields_shown(multi_plan(facts, meta, ranges), facts, meta),
{
    let head = seq![(HeaderName::AcceptRanges, "bytes"@)];
    let tail = seq![
        (HeaderName::ContentType, "multipart/byteranges; boundary="@ + facts.boundary),
        (
            HeaderName::ContentLength,
            text::decimal(multipart_total(facts, meta, ranges) as nat),
        ),
    ];
    lemma_content_fields_shown(multi_plan(facts, meta, ranges), facts, meta, head, tail);
}

/// The validators are shown with statuses 200, 206 and 304, each where it is
/// enabled, and with no other status. A configured `Cache-Control` is sent with
/// statuses 200 and 206, and with no other.
pub proof fn law_validators_and_cache_control_are_shown(facts: Facts, meta: FileMeta)
    ensures
        ({
            let plan = planned(facts, meta);
            let content = plan.status == StatusCode::OK || plan.status
                == StatusCode::PARTIAL_CONTENT;
            &&& content || plan.status == StatusCode::NOT_MODIFIED ==> validators_shown(
                plan,
                facts,
                meta,
            )
            &&& has_field(plan, HeaderName::ETag) || has_field(plan, HeaderName::LastModified)
                ==> content || plan.status == StatusCode::NOT_MODIFIED
            &&& content && facts.cache_control is Some ==> shows(
                plan,
                HeaderName::CacheControl,
                facts.cache_control->0,
            )
            &&& has_field(plan, HeaderName::CacheControl) ==> content && facts.cache_control is Some
        }),
{
    match request_condition(facts, meta) {
        Condition::PreconditionFailed => {},
        Condition::NotModified => {
            lemma_validator_names(facts, meta);
        },
        Condition::Proceed => match request_range(facts, meta, range_counts(facts, meta)) {
            RangePlan::Unsatisfiable => {},
            RangePlan::Full => lemma_full_plan_fields(facts, meta),
            RangePlan::Single(range) => lemma_single_plan_fields(facts, meta, range),
            RangePlan::Multi(ranges) => lemma_multi_plan_fields(facts, meta, ranges),
        },
    }
}

/// A response with a `Content-Encoding` says that it varies by
/// `Accept-Encoding`, and encoded content has both fields.
pub proof fn law_encoded_responses_vary(facts: Facts, meta: FileMeta)
    ensures
        ({
            let plan = planned(facts, meta);
            let content = plan.status == StatusCode::OK || plan.status
                == StatusCode::PARTIAL_CONTENT;
            &&& content && facts.content_encoding is Some ==> shows(
                plan,
                HeaderName::ContentEncoding,
                facts.content_encoding->0,
            )
            &&& has_field(plan, HeaderName::ContentEncoding) ==> content && shows(
                plan,
                HeaderName::Vary,
                "Accept-Encoding"@,
            )
        }),
{
    match request_condition(facts, meta) {
        Condition::PreconditionFailed => {},
        Condition::NotModified => {
            lemma_validator_names(facts, meta);
        },
        Condition::Proceed => match request_range(facts, meta, range_counts(facts, meta)) {
            RangePlan::Unsatisfiable => {},
            RangePlan::Full => lemma_full_plan_fields(facts, meta),
            RangePlan::Single(range) => lemma_single_plan_fields(facts, meta, range),
            RangePlan::Multi(ranges) => lemma_multi_plan_fields(facts, meta, ranges),
        },
    }
}

/// The values that fields with a name have, in order.
pub open spec fn values_of(fields: Seq<(HeaderName, Seq<char>)>, name: HeaderName) -> Seq<Seq<char>>
    decreases fields.len(),
{
    if fields.len() == 0 {
        seq![]
    } else if fields.last().0 == name {
        values_of(fields.drop_last(), name).push(fields.last().1)
    } else {
        values_of(fields.drop_last(), name)
    }
}

proof fn lemma_values_append(
    a: Seq<(HeaderName, Seq<char>)>,
    b: Seq<(HeaderName, Seq<char>)>,
    name: HeaderName,
)
    ensures
        values_of(a + b, name) == values_of(a, name) + values_of(b, name),
    decreases b.len(),
{
    if b.len() > 0 {
        lemma_values_append(a, b.drop_last(), name);
        assert((a + b).drop_last() =~= a + b.drop_last());
        assert(values_of(a + b, name) =~= values_of(a, name) + values_of(b, name));
    } else {
        assert(a + b =~= a);
        assert(values_of(a, name) + values_of(b, name) =~= values_of(a, name));
    }
}

proof fn lemma_values_of_one(field: (HeaderName, Seq<char>), name: HeaderName)
    ensures
        values_of(seq![field], name) == if field.0 == name {
            seq![field.1]
        } else {
            seq![]
        },
{
    assert(seq![field].drop_last() =~= seq![]);
    assert(values_of(seq![field].drop_last(), name) =~= seq![]);
    assert(values_of(seq![field], name) =~= if field.0 == name {
        seq![field.1]
    } else {
        seq![]
    });
}

proof fn lemma_values_of_two(
    a: (HeaderName, Seq<char>),
    b: (HeaderName, Seq<char>),
    name: HeaderName,
)
    ensures
        values_of(seq![a, b], name) == values_of(seq![a], name) + values_of(seq![b], name),
{
    lemma_values_append(seq![a], seq![b], name);
    assert(seq![a] + seq![b] =~= seq![a, b]);
}

/// A value where there is one.
pub open spec fn listed(value: Option<Seq<char>>) -> Seq<Seq<char>> {
    match value {
        Some(value) => seq![value],
        None => seq![],
    }
}

/// The values that a field should have in a response with content, other than
/// those that describe the content's type, place and length.
pub open spec fn common_values(facts: Facts, meta: FileMeta, name: HeaderName) -> Seq<Seq<char>> {
    match name {
        HeaderName::AcceptRanges => seq!["bytes"@],
        HeaderName::ETag => if facts.etag_enabled {
            seq![validators::etag_text(meta.size, meta.mtime_unix, meta.mtime_nanos)]
        } else {
            seq![]
        },
        HeaderName::LastModified => if facts.last_modified_enabled {
            seq![validators::http_date_text(meta.mtime_unix as int)]
        } else {
            seq![]
        },
        HeaderName::ContentEncoding => listed(facts.content_encoding),
        HeaderName::Vary => if facts.content_encoding is Some || facts.add_vary {
            seq!["Accept-Encoding"@]
        } else {
            seq![]
        },
        HeaderName::CacheControl => listed(facts.cache_control),
        _ => seq![],
    }
}

proof fn lemma_common_values(facts: Facts, meta: FileMeta, name: HeaderName)
    ensures
        values_of(validator_fields(facts, meta), name) == if name == HeaderName::ETag || name
            == HeaderName::LastModified {
            common_values(facts, meta, name)
        } else {
            seq![]
        },
        values_of(encoding_fields(facts), name) == if name == HeaderName::ContentEncoding || name
            == HeaderName::Vary || name == HeaderName::CacheControl {
            common_values(facts, meta, name)
        } else {
            seq![]
        },
{
    let none = Seq::<(HeaderName, Seq<char>)>::empty();
    let etag = (HeaderName::ETag, meta_etag(meta));
    let date = (HeaderName::LastModified, validators::http_date_text(meta.mtime_unix as int));
    let a = if facts.etag_enabled {
        seq![etag]
    } else {
        seq![]
    };
    let b = if facts.last_modified_enabled {
        seq![date]
    } else {
        seq![]
    };
    lemma_values_append(a, b, name);
    lemma_values_of_one(etag, name);
    lemma_values_of_one(date, name);
    assert(values_of(none, name) =~= seq![]);
    assert(validator_fields(facts, meta) == a + b);
    assert(values_of(a, name) + values_of(b, name) =~= if name == HeaderName::ETag || name
        == HeaderName::LastModified {
        common_values(facts, meta, name)
    } else {
        seq![]
    });
    let c = match facts.content_encoding {
        Some(encoding) => seq![(HeaderName::ContentEncoding, encoding)],
        None => seq![],
    };
    let vary = (HeaderName::Vary, "Accept-Encoding"@);
    let d = if facts.content_encoding is Some || facts.add_vary {
        seq![vary]
    } else {
        seq![]
    };
    let e = match facts.cache_control {
        Some(value) => seq![(HeaderName::CacheControl, value)],
        None => seq![],
    };
    lemma_values_append(c + d, e, name);
    lemma_values_append(c, d, name);
    lemma_values_of_one(vary, name);
    if let Some(encoding) = facts.content_encoding {
        lemma_values_of_one((HeaderName::ContentEncoding, encoding), name);
    }
    if let Some(value) = facts.cache_control {
        lemma_values_of_one((HeaderName::CacheControl, value), name);
    }
    assert(encoding_fields(facts) == c + d + e);
    assert(values_of(c, name) + values_of(d, name) + values_of(e, name) =~= if name
        == HeaderName::ContentEncoding || name == HeaderName::Vary || name
        == HeaderName::CacheControl {
        common_values(facts, meta, name)
    } else {
        seq![]
    });
}

proof fn lemma_content_values(
    facts: Facts,
    meta: FileMeta,
    name: HeaderName,
    head: Seq<(HeaderName, Seq<char>)>,
    tail: Seq<(HeaderName, Seq<char>)>,
)
    ensures
        values_of(head + validator_fields(facts, meta) + encoding_fields(facts) + tail, name)
            == values_of(head, name) + (if name == HeaderName::AcceptRanges {
            seq![]
        } else {
            common_values(facts, meta, name)
        }) + values_of(tail, name),
{
    let shown = validator_fields(facts, meta);
    let negotiated = encoding_fields(facts);
    lemma_values_append(head + shown + negotiated, tail, name);
    lemma_values_append(head + shown, negotiated, name);
    lemma_values_append(head, shown, name);
    lemma_common_values(facts, meta, name);
    let middle = if name == HeaderName::AcceptRanges {
        seq![]
    } else {
        common_values(facts, meta, name)
    };
    assert(values_of(shown, name) + values_of(negotiated, name) =~= middle);
    assert(values_of(head, name) + values_of(shown, name) + values_of(negotiated, name)
        =~= values_of(head, name) + middle);
}

/// The values that a field should have in the response to a request that no
/// condition stops, given which part of the resource is asked for.
pub open spec fn expected_values(
    facts: Facts,
    meta: FileMeta,
    range: RangePlan,
    name: HeaderName,
) -> Seq<Seq<char>> {
    match range {
        RangePlan::Full => match name {
            HeaderName::ContentType => seq![facts.content_type],
            HeaderName::ContentLength => seq![text::decimal(meta.size as nat)],
            _ => common_values(facts, meta, name),
        },
        RangePlan::Single(part) => match name {
            HeaderName::ContentType => seq![facts.content_type],
            HeaderName::ContentLength => seq![text::decimal((part.end - part.start + 1) as nat)],
            HeaderName::ContentRange => seq![
                "bytes "@ + text::decimal(part.start as nat) + "-"@ + text::decimal(
                    part.end as nat,
                ) + "/"@ + text::decimal(meta.size as nat),
            ],
            _ => common_values(facts, meta, name),
        },
        RangePlan::Multi(parts) => match name {
            HeaderName::ContentType => seq!["multipart/byteranges; boundary="@ + facts.boundary],
            HeaderName::ContentLength => seq![
                text::decimal(
                    range::multipart_len(parts, facts.content_type, meta.size, facts.boundary) as nat,
                ),
            ],
            _ => common_values(facts, meta, name),
        },
        RangePlan::Unsatisfiable => match name {
            HeaderName::ContentRange => seq!["bytes */"@ + text::decimal(meta.size as nat)],
            _ => seq![],
        },
    }
}

proof fn lemma_full_values(facts: Facts, meta: FileMeta, name: HeaderName)
    ensures
        values_of(full_plan(facts, meta).headers, name) == expected_values(
            facts,
            meta,
            RangePlan::Full,
            name,
        ),
{
    let kind = (HeaderName::ContentType, facts.content_type);
    let unit = (HeaderName::AcceptRanges, "bytes"@);
    let length = (HeaderName::ContentLength, text::decimal(meta.size as nat));
    lemma_values_of_two(kind, unit, name);
    lemma_values_of_one(kind, name);
    lemma_values_of_one(unit, name);
    lemma_values_of_one(length, name);
    lemma_content_values(facts, meta, name, seq![kind, unit], seq![length]);
    assert(values_of(full_plan(facts, meta).headers, name) =~= expected_values(
        facts,
        meta,
        RangePlan::Full,
        name,
    ));
}

proof fn lemma_single_values(facts: Facts, meta: FileMeta, part: ByteRange, name: HeaderName)
    ensures
        values_of(single_plan(facts, meta, part).headers, name) == expected_values(
            facts,
            meta,
            RangePlan::Single(part),
            name,
        ),
{
    let kind = (HeaderName::ContentType, facts.content_type);
    let unit = (HeaderName::AcceptRanges, "bytes"@);
    let place = (HeaderName::ContentRange, range::content_range_text(part, meta.size));
    let length = (HeaderName::ContentLength, text::decimal(part.spec_len() as nat));
    lemma_values_of_two(kind, unit, name);
    lemma_values_of_one(kind, name);
    lemma_values_of_one(unit, name);
    lemma_values_of_two(place, length, name);
    lemma_values_of_one(place, name);
    lemma_values_of_one(length, name);
    lemma_content_values(facts, meta, name, seq![kind, unit], seq![place, length]);
    assert(values_of(single_plan(facts, meta, part).headers, name) =~= expected_values(
        facts,
        meta,
        RangePlan::Single(part),
        name,
    ));
}

proof fn lemma_multi_values(facts: Facts, meta: FileMeta, parts: Seq<ByteRange>, name: HeaderName)
    ensures
        values_of(multi_plan(facts, meta, parts).headers, name) == expected_values(
            facts,
            meta,
            RangePlan::Multi(parts),
            name,
        ),
{
    let unit = (HeaderName::AcceptRanges, "bytes"@);
    let kind = (HeaderName::ContentType, "multipart/byteranges; boundary="@ + facts.boundary);
    let length = (
        HeaderName::ContentLength,
        text::decimal(multipart_total(facts, meta, parts) as nat),
    );
    lemma_values_of_one(unit, name);
    lemma_values_of_two(kind, length, name);
    lemma_values_of_one(kind, name);
    lemma_values_of_one(length, name);
    lemma_content_values(facts, meta, name, seq![unit], seq![kind, length]);
    assert(values_of(multi_plan(facts, meta, parts).headers, name) =~= expected_values(
        facts,
        meta,
        RangePlan::Multi(parts),
        name,
    ));
}

/// Every field of a response has the values that it should have, and no others.
/// In particular a whole file and a single range of it have the file's content
/// type, and several ranges are `multipart/byteranges` with the boundary. A
/// response that tells the client its copy is current has the validators alone,
/// and a failed precondition has no fields.
pub proof fn law_fields_have_their_values(
    facts: Facts,
    meta: FileMeta,
    range: RangePlan,
    name: HeaderName,
)
    ensures
        values_of(plan_given(facts, meta, Condition::Proceed, range).headers, name)
            == expected_values(facts, meta, range, name),
        values_of(plan_given(facts, meta, Condition::NotModified, range).headers, name) == if name
            == HeaderName::ETag || name == HeaderName::LastModified {
            common_values(facts, meta, name)
        } else {
            seq![]
        },
        plan_given(facts, meta, Condition::PreconditionFailed, range).headers.len() == 0,
{
    lemma_common_values(facts, meta, name);
    match range {
        RangePlan::Full => lemma_full_values(facts, meta, name),
        RangePlan::Single(part) => lemma_single_values(facts, meta, part, name),
        RangePlan::Multi(parts) => lemma_multi_values(facts, meta, parts, name),
        RangePlan::Unsatisfiable => {
            lemma_values_of_one(
                (
                    HeaderName::ContentRange,
                    range::content_range_unsatisfied_text(meta.size),
                ),
                name,
            );
        },
    }
}

/// A single range of a file has the content type that the whole file has, and
/// all its other fields but those that say which bytes it holds.
pub proof fn law_a_range_is_described_as_the_whole(
    facts: Facts,
    meta: FileMeta,
    name: HeaderName,
)
    requires
        request_range(facts, meta, range_counts(facts, meta)) is Single,
        name != HeaderName::ContentRange,
        name != HeaderName::ContentLength,
    ensures
        ({
            let part = planned(facts, meta);
            let whole = planned(Facts { range_header: None, ..facts }, meta);
            &&& part.status == StatusCode::PARTIAL_CONTENT <==> whole.status == StatusCode::OK
            &&& values_of(part.headers, name) == values_of(whole.headers, name)
            &&& part.status == StatusCode::PARTIAL_CONTENT ==> values_of(
                part.headers,
                HeaderName::ContentType,
            ) == seq![facts.content_type]
        }),
{
    let plain = Facts { range_header: None, ..facts };
    let range = request_range(facts, meta, range_counts(facts, meta));
    law_fields_have_their_values(facts, meta, range, name);
    law_fields_have_their_values(facts, meta, range, HeaderName::ContentType);
    law_fields_have_their_values(plain, meta, RangePlan::Full, name);
    law_fields_have_their_values(plain, meta, range, name);
    lemma_common_values(facts, meta, name);
    lemma_common_values(plain, meta, name);
    assert(common_values(facts, meta, name) == common_values(plain, meta, name));
}

/// What is served follows from the conditionals and the range. A failed
/// precondition is answered 412 and a current copy 304. Otherwise the whole
/// file is served with 200, one range and several ranges with 206, each by the
/// bytes asked for, and what cannot be satisfied is answered 416. Only a GET
/// has a body.
pub proof fn law_status_and_body_follow_the_range(
    facts: Facts,
    meta: FileMeta,
    condition: Condition,
    range: RangePlan,
)
    ensures
        ({
            let plan = plan_given(facts, meta, condition, range);
            match condition {
                Condition::PreconditionFailed => plan.status.number() == 412 && plan.body is Empty,
                Condition::NotModified => plan.status.number() == 304 && plan.body is Empty,
                Condition::Proceed => match range {
                    RangePlan::Unsatisfiable => plan.status.number() == 416 && plan.body is Empty,
                    RangePlan::Full => plan.status.number() == 200 && plan.body
                        == if facts.method_head {
                        BodyView::Empty
                    } else {
                        BodyView::Whole { len: meta.size }
                    },
                    RangePlan::Single(part) => plan.status.number() == 206 && plan.body
                        == if facts.method_head {
                        BodyView::Empty
                    } else {
                        BodyView::Segments(seq![part])
                    },
                    RangePlan::Multi(ranges) => plan.status.number() == 206
                        && if facts.method_head {
                        plan.body is Empty
                    } else {
                        &&& plan.body matches BodyView::Multipart {
                            parts,
                            terminator,
                            content_length,
                        }
                        &&& parts.len() == ranges.len()
                        &&& forall|i: int|
                            0 <= i < ranges.len() ==> (#[trigger] parts[i]).0 == ranges[i]
                                && parts[i].1 == encode_utf8(
                                range::part_header(
                                    i,
                                    ranges[i],
                                    facts.content_type,
                                    meta.size,
                                    facts.boundary,
                                ),
                            )
                        &&& terminator == encode_utf8(range::closing_boundary(facts.boundary))
                        &&& content_length as int == range::multipart_len(
                            ranges,
                            facts.content_type,
                            meta.size,
                            facts.boundary,
                        ) || range::multipart_len(
                            ranges,
                            facts.content_type,
                            meta.size,
                            facts.boundary,
                        ) > u64::MAX || range::multipart_len(
                            ranges,
                            facts.content_type,
                            meta.size,
                            facts.boundary,
                        ) < 0
                    },
                },
            }
        }),
{
}

/// A request is answered by its conditionals first and by its range then. A
/// `Range` header counts unless `If-Range` rules it out, and it is as if it had
/// not been sent where it does not count. A conditional that decides leaves it
/// no influence.
pub proof fn law_conditionals_come_before_ranges(
    facts: Facts,
    meta: FileMeta,
    raw: Seq<char>,
    other: Option<Seq<char>>,
)
    ensures
        ({
            let with_range = Facts { range_header: Some(raw), ..facts };
            let with_other = Facts { range_header: other, ..facts };
            let plain = Facts { range_header: None, ..facts };
            let without_if_range = Facts { if_range: None, ..with_range };
            let status = planned(plain, meta).status.number();
            &&& status == 200 || status == 304 || status == 412
            &&& status != 200 ==> planned(with_range, meta) == planned(plain, meta)
            &&& !range_counts(facts, meta) ==> planned(with_range, meta) == planned(plain, meta)
            &&& range_counts(facts, meta) ==> planned(with_range, meta) == planned(
                without_if_range,
                meta,
            )
            &&& range_counts(without_if_range, meta)
            &&& status == 200 ==> planned(without_if_range, meta) == plan_given(
                with_range,
                meta,
                Condition::Proceed,
                range::range_plan(raw, meta.size, facts.allow_multi, facts.max_parts),
            )
            &&& range_counts(with_other, meta) == range_counts(plain, meta)
        }),
{
    let with_range = Facts { range_header: Some(raw), ..facts };
    let plain = Facts { range_header: None, ..facts };
    let without_if_range = Facts { if_range: None, ..with_range };
    lemma_same_content(with_range, plain, meta);
    lemma_same_content(with_range, without_if_range, meta);
    if let RangePlan::Multi(ranges) = range::range_plan(
        raw,
        meta.size,
        facts.allow_multi,
        facts.max_parts,
    ) {
        assert(multipart_views(with_range, meta, ranges) =~= multipart_views(
            without_if_range,
            meta,
            ranges,
        ));
    }
}

proof fn lemma_same_content(a: Facts, b: Facts, meta: FileMeta)
    requires
        a.etag_enabled == b.etag_enabled,
        a.last_modified_enabled == b.last_modified_enabled,
        a.content_encoding == b.content_encoding,
        a.add_vary == b.add_vary,
        a.cache_control == b.cache_control,
    ensures
        validator_fields(a, meta) == validator_fields(b, meta),
        encoding_fields(a) == encoding_fields(b),
{
    assert(validator_fields(a, meta) =~= validator_fields(b, meta));
    assert(encoding_fields(a) =~= encoding_fields(b));
}

/// An ordinary response can be sent: one whose texts are printable ASCII, whose
/// modification time has an HTTP date or is not shown, and whose length 64 bits
/// hold.
pub proof fn law_ordinary_responses_can_be_sent(
    facts: Facts,
    meta: FileMeta,
    condition: Condition,
    range: RangePlan,
)
    requires
        is_printable(facts.content_type),
        is_printable(facts.boundary),
        facts.content_encoding matches Some(encoding) ==> is_printable(encoding),
        facts.cache_control matches Some(value) ==> is_printable(value),
        !facts.last_modified_enabled || 0 <= meta.mtime_unix < 253_402_300_800,
        range matches RangePlan::Multi(ranges) ==> range::multipart_len(
            ranges,
            facts.content_type,
            meta.size,
            facts.boundary,
        ) <= u64::MAX,
    ensures
        plan_valid(facts, meta, condition, range),
        range == request_range(facts, meta, range_counts(facts, meta)) && condition
            == request_condition(facts, meta) ==> response_valid(facts, meta),
{
    lemma_printable(facts.content_type);
    lemma_printable(facts.boundary);
    if let Some(encoding) = facts.content_encoding {
        lemma_printable(encoding);
    }
    if let Some(value) = facts.cache_control {
        lemma_printable(value);
    }
}

/// Whether a text is printable ASCII.
pub open spec fn is_printable(s: Seq<char>) -> bool {
    forall|i: int| 0 <= i < s.len() ==> ' ' <= #[trigger] s[i] <= '~'
}

proof fn lemma_printable(s: Seq<char>)
    requires
        is_printable(s),
    ensures
        is_plain_text(s),
        validators::is_header_text(s),
{
    assert forall|i: int| 0 <= i < s.len() implies validators::is_header_char(#[trigger] s[i]) by {}
}

/// A response with content shows the file's content type exactly once: as it is
/// for the whole file and for a single range, and inside the parts for several
/// ranges, which are `multipart/byteranges` with the boundary. It says that
/// ranges are served, which bytes a single range holds and how long the body is.
pub proof fn law_content_is_described(facts: Facts, meta: FileMeta)
    ensures
        ({
            let plan = planned(facts, meta);
            let status = plan.status.number();
            let range = request_range(facts, meta, range_counts(facts, meta));
            &&& status == 200 || (status == 206 && range is Single) ==> values_of(
                plan.headers,
                HeaderName::ContentType,
            ) == seq![facts.content_type]
            &&& status == 206 && range is Multi ==> values_of(
                plan.headers,
                HeaderName::ContentType,
            ) == seq!["multipart/byteranges; boundary="@ + facts.boundary]
            &&& status == 206 ==> range is Single || range is Multi
            &&& status == 200 || status == 206 <==> values_of(
                plan.headers,
                HeaderName::AcceptRanges,
            ) == seq!["bytes"@]
            &&& status == 200 ==> values_of(plan.headers, HeaderName::ContentLength) == seq![
                text::decimal(meta.size as nat),
            ] && values_of(plan.headers, HeaderName::ContentRange).len() == 0
            &&& (status == 206 && range is Single) ==> values_of(
                plan.headers,
                HeaderName::ContentLength,
            ) == seq![text::decimal((range->Single_0.end - range->Single_0.start + 1) as nat)]
                && values_of(plan.headers, HeaderName::ContentRange) == seq![
                "bytes "@ + text::decimal(range->Single_0.start as nat) + "-"@ + text::decimal(
                    range->Single_0.end as nat,
                ) + "/"@ + text::decimal(meta.size as nat),
            ]
            &&& status == 416 ==> values_of(plan.headers, HeaderName::ContentRange) == seq![
                "bytes */"@ + text::decimal(meta.size as nat),
            ]
            &&& values_of(plan.headers, HeaderName::Location).len() == 0
            &&& values_of(plan.headers, HeaderName::Allow).len() == 0
        }),
{
    let range = request_range(facts, meta, range_counts(facts, meta));
    law_fields_have_their_values(facts, meta, range, HeaderName::ContentType);
    law_fields_have_their_values(facts, meta, range, HeaderName::AcceptRanges);
    law_fields_have_their_values(facts, meta, range, HeaderName::ContentLength);
    law_fields_have_their_values(facts, meta, range, HeaderName::ContentRange);
    law_fields_have_their_values(facts, meta, range, HeaderName::Location);
    law_fields_have_their_values(facts, meta, range, HeaderName::Allow);
    law_status_and_body_follow_the_range(facts, meta, request_condition(facts, meta), range);
    let plan = planned(facts, meta);
    assert(plan.headers.len() == 0 ==> values_of(plan.headers, HeaderName::AcceptRanges).len() == 0);
    assert(plan.headers.len() == 0 ==> values_of(plan.headers, HeaderName::Location).len() == 0);
    assert(plan.headers.len() == 0 ==> values_of(plan.headers, HeaderName::Allow).len() == 0);
}

/// The validators, the encoding and the caching of the content are shown exactly
/// once, each where it applies.
pub proof fn law_representation_is_described(facts: Facts, meta: FileMeta)
    requires
        planned(facts, meta).status.number() == 200 || planned(facts, meta).status.number() == 206,
    ensures
        ({
            let headers = planned(facts, meta).headers;
            &&& values_of(headers, HeaderName::ETag) == if facts.etag_enabled {
                seq![validators::etag_text(meta.size, meta.mtime_unix, meta.mtime_nanos)]
            } else {
                seq![]
            }
            &&& values_of(headers, HeaderName::LastModified) == if facts.last_modified_enabled {
                seq![validators::http_date_text(meta.mtime_unix as int)]
            } else {
                seq![]
            }
            &&& values_of(headers, HeaderName::ContentEncoding) == match facts.content_encoding {
                Some(encoding) => seq![encoding],
                None => seq![],
            }
            &&& values_of(headers, HeaderName::Vary) == if facts.content_encoding is Some
                || facts.add_vary {
                seq!["Accept-Encoding"@]
            } else {
                seq![]
            }
            &&& values_of(headers, HeaderName::CacheControl) == match facts.cache_control {
                Some(value) => seq![value],
                None => seq![],
            }
        }),
{
    let range = request_range(facts, meta, range_counts(facts, meta));
    law_fields_have_their_values(facts, meta, range, HeaderName::ETag);
    law_fields_have_their_values(facts, meta, range, HeaderName::LastModified);
    law_fields_have_their_values(facts, meta, range, HeaderName::ContentEncoding);
    law_fields_have_their_values(facts, meta, range, HeaderName::Vary);
    law_fields_have_their_values(facts, meta, range, HeaderName::CacheControl);
}

/// The conditional headers count as they were sent, each where its validator is
/// shown, against the validators of the file; `If-Range` rules out a range that
/// does not go with them.
pub proof fn law_conditionals_are_held_against_the_file(facts: Facts, meta: FileMeta)
    ensures
        ({
            let etag = validators::etag_text(meta.size, meta.mtime_unix, meta.mtime_nanos);
            let unix = meta.mtime_unix as int;
            &&& facts.etag_enabled && facts.last_modified_enabled ==> request_condition(facts, meta)
                == validators::condition(
                facts.if_match,
                facts.if_unmodified_since,
                facts.if_none_match,
                facts.if_modified_since,
                etag,
                unix,
            )
            &&& facts.etag_enabled && !facts.last_modified_enabled ==> request_condition(
                facts,
                meta,
            ) == validators::condition(facts.if_match, None, facts.if_none_match, None, etag, unix)
            &&& !facts.etag_enabled && facts.last_modified_enabled ==> request_condition(
                facts,
                meta,
            ) == validators::condition(
                None,
                facts.if_unmodified_since,
                None,
                facts.if_modified_since,
                etag,
                unix,
            )
            &&& !facts.etag_enabled && !facts.last_modified_enabled ==> request_condition(
                facts,
                meta,
            ) == Condition::Proceed
            &&& facts.if_range is None ==> range_counts(facts, meta)
            &&& facts.if_range matches Some(raw) ==> range_counts(facts, meta)
                == validators::if_range_permits(raw, etag, meta.mtime_unix)
            &&& planned(facts, meta).status.number() == 412 <==> request_condition(facts, meta)
                == Condition::PreconditionFailed
            &&& planned(facts, meta).status.number() == 304 <==> request_condition(facts, meta)
                == Condition::NotModified
        }),
{
}

/// What a response is planned from is shown field by field.
pub proof fn law_facts_show_the_request(facts: RequestFacts)
    ensures
        facts@.method_head == facts.method_head,
        facts@.if_match == validators::text_of(facts.conditionals.if_match),
        facts@.if_unmodified_since == validators::text_of(facts.conditionals.if_unmodified_since),
        facts@.if_none_match == validators::text_of(facts.conditionals.if_none_match),
        facts@.if_modified_since == validators::text_of(facts.conditionals.if_modified_since),
        facts@.if_range == validators::text_of(facts.conditionals.if_range),
        facts@.range_header == validators::text_of(facts.range_header),
        facts@.content_type == facts.content_type@,
        facts@.etag_enabled == facts.etag_enabled,
        facts@.last_modified_enabled == facts.last_modified_enabled,
        facts@.allow_multi == facts.range_policy.allow_multi,
        facts@.max_parts == facts.range_policy.max_parts,
        facts@.boundary == facts.boundary@,
        facts@.content_encoding == validators::text_of(facts.content_encoding),
        facts@.add_vary == facts.add_vary,
        facts@.cache_control == validators::text_of(facts.cache_control),
        validators::text_of(None) is None,
        forall|s: &str| #[trigger] validators::text_of(Some(s)) == Some(s@),
{
}

/// Nothing is sent that no header field can hold: the texts of a response with
/// content have no control characters but tabs, and a modification time that is
/// shown has an HTTP date.
pub proof fn law_unsendable_values_are_not_sent(
    facts: Facts,
    meta: FileMeta,
    range: RangePlan,
    i: int,
)
    requires
        plan_valid(facts, meta, Condition::Proceed, range),
        range !is Unsatisfiable,
    ensures
        facts.last_modified_enabled ==> 0 <= meta.mtime_unix < 253_402_300_800,
        range !is Multi && 0 <= i < facts.content_type.len() ==> '\u{20}' <= facts.content_type[i]
            || facts.content_type[i] == '\t',
        range is Multi && 0 <= i < facts.boundary.len() ==> '\u{20}' <= facts.boundary[i]
            || facts.boundary[i] == '\t',
        facts.cache_control matches Some(value) ==> (0 <= i < value.len() ==> '\u{20}' <= value[i]
            || value[i] == '\t'),
        range matches RangePlan::Multi(ranges) ==> range::multipart_len(
            ranges,
            facts.content_type,
            meta.size,
            facts.boundary,
        ) <= u64::MAX,
{
    assert(range !is Multi && 0 <= i < facts.content_type.len() ==> validators::is_header_char(
        facts.content_type[i],
    ));
    assert(range is Multi && 0 <= i < facts.boundary.len() ==> validators::is_header_char(
        facts.boundary[i],
    ));
    if let Some(value) = facts.cache_control {
        assert(0 <= i < value.len() ==> validators::is_header_char(value[i]));
    }
}

} // verus!
