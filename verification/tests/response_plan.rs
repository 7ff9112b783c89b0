//! Response planning.

use envoy_files::message::StatusCode;
use envoy_files::range::{ByteRange, RangeOutcome, RangePolicy};
use envoy_files::response_plan::{
    plan_for, plan_response, try_plan_response, BodyPlan, FileMeta, RequestFacts, ResponsePlan,
};
use envoy_files::validators::{format_http_date, make_etag, Condition, ConditionalHeaders};

fn no_conditionals() -> ConditionalHeaders<'static> {
    ConditionalHeaders {
        if_none_match: None,
        if_modified_since: None,
        if_match: None,
        if_unmodified_since: None,
        if_range: None,
    }
}

fn base_facts() -> RequestFacts<'static> {
    RequestFacts {
        method_head: false,
        conditionals: no_conditionals(),
        range_header: None,
        content_type: "text/plain; charset=utf-8".to_string(),
        etag_enabled: true,
        last_modified_enabled: true,
        range_policy: RangePolicy {
            allow_multi: true,
            max_parts: 50,
        },
        boundary: "BOUNDARY".to_string(),
        content_encoding: None,
        add_vary: false,
        cache_control: None,
    }
}

fn base_meta() -> FileMeta {
    FileMeta {
        size: 1000,
        mtime_unix: 784_111_777,
        mtime_nanos: 0,
        is_dir: false,
    }
}

fn header<'a>(plan: &'a ResponsePlan, name: &str) -> Option<&'a [u8]> {
    plan.headers
        .iter()
        .find(|(n, _)| n.as_str() == name)
        .map(|(_, v)| v.as_bytes())
}

#[test]
fn plain_get_returns_200_with_whole_body() {
    let plan = plan_response(&base_facts(), &base_meta());
    assert_eq!(plan.status, StatusCode::OK);
    assert_eq!(header(&plan, "content-length"), Some(b"1000".as_slice()));
    assert_eq!(
        header(&plan, "content-type"),
        Some(b"text/plain; charset=utf-8".as_slice())
    );
    assert_eq!(header(&plan, "accept-ranges"), Some(b"bytes".as_slice()));
    assert!(header(&plan, "etag").is_some());
    assert!(header(&plan, "last-modified").is_some());
    match plan.body {
        BodyPlan::Whole { len } => assert_eq!(len, 1000),
        _ => panic!("expected Whole body"),
    }
}

#[test]
fn head_request_has_empty_body_but_same_headers() {
    let mut facts = base_facts();
    facts.method_head = true;
    let plan = plan_response(&facts, &base_meta());
    assert_eq!(plan.status, StatusCode::OK);
    assert_eq!(header(&plan, "content-length"), Some(b"1000".as_slice()));
    assert!(matches!(plan.body, BodyPlan::Empty));
}

#[test]
fn content_encoding_adds_vary_and_content_encoding_headers() {
    let mut facts = base_facts();
    facts.content_encoding = Some("gzip");
    let plan = plan_response(&facts, &base_meta());
    assert_eq!(header(&plan, "content-encoding"), Some(b"gzip".as_slice()));
    assert_eq!(header(&plan, "vary"), Some(b"Accept-Encoding".as_slice()));
}

#[test]
fn add_vary_flag_without_encoding_still_adds_vary() {
    let mut facts = base_facts();
    facts.add_vary = true;
    let plan = plan_response(&facts, &base_meta());
    assert!(header(&plan, "content-encoding").is_none());
    assert_eq!(header(&plan, "vary"), Some(b"Accept-Encoding".as_slice()));
}

#[test]
fn no_encoding_and_no_add_vary_omits_vary() {
    let plan = plan_response(&base_facts(), &base_meta());
    assert!(header(&plan, "vary").is_none());
}

#[test]
fn if_none_match_star_yields_304_with_validators() {
    let mut facts = base_facts();
    facts.conditionals.if_none_match = Some("*");
    let plan = plan_response(&facts, &base_meta());
    assert_eq!(plan.status, StatusCode::NOT_MODIFIED);
    assert!(header(&plan, "etag").is_some());
    assert!(header(&plan, "last-modified").is_some());
    assert!(matches!(plan.body, BodyPlan::Empty));
}

#[test]
fn if_match_mismatch_yields_412() {
    let mut facts = base_facts();
    facts.conditionals.if_match = Some("\"nonexistent\"");
    let plan = plan_response(&facts, &base_meta());
    assert_eq!(plan.status, StatusCode::PRECONDITION_FAILED);
    assert!(matches!(plan.body, BodyPlan::Empty));
}

#[test]
fn disabled_etag_ignores_if_none_match_header() {
    let mut facts = base_facts();
    facts.etag_enabled = false;
    facts.conditionals.if_none_match = Some("*"); // would be 304 if etag were enabled
    let plan = plan_response(&facts, &base_meta());
    assert_eq!(plan.status, StatusCode::OK);
    assert!(header(&plan, "etag").is_none());
}

#[test]
fn disabled_last_modified_omits_header_and_ignores_conditional() {
    let mut facts = base_facts();
    facts.last_modified_enabled = false;
    let formatted = format_http_date(784_111_777);
    facts.conditionals.if_modified_since = Some(&formatted);
    let plan = plan_response(&facts, &base_meta());
    assert_eq!(plan.status, StatusCode::OK);
    assert!(header(&plan, "last-modified").is_none());
}

#[test]
fn single_range_yields_206_with_content_range() {
    let mut facts = base_facts();
    facts.range_header = Some("bytes=0-499");
    let plan = plan_response(&facts, &base_meta());
    assert_eq!(plan.status, StatusCode::PARTIAL_CONTENT);
    assert_eq!(
        header(&plan, "content-range"),
        Some(b"bytes 0-499/1000".as_slice())
    );
    assert_eq!(header(&plan, "content-length"), Some(b"500".as_slice()));
    match plan.body {
        BodyPlan::Segments(ranges) => {
            assert_eq!(ranges, vec![ByteRange { start: 0, end: 499 }]);
        }
        _ => panic!("expected Segments body"),
    }
}

#[test]
fn head_with_range_has_empty_body_but_range_headers() {
    let mut facts = base_facts();
    facts.method_head = true;
    facts.range_header = Some("bytes=0-499");
    let plan = plan_response(&facts, &base_meta());
    assert_eq!(plan.status, StatusCode::PARTIAL_CONTENT);
    assert_eq!(header(&plan, "content-length"), Some(b"500".as_slice()));
    assert!(matches!(plan.body, BodyPlan::Empty));
}

#[test]
fn unsatisfiable_range_yields_416() {
    let mut facts = base_facts();
    facts.range_header = Some("bytes=5000-6000");
    let plan = plan_response(&facts, &base_meta());
    assert_eq!(plan.status, StatusCode::RANGE_NOT_SATISFIABLE);
    assert_eq!(
        header(&plan, "content-range"),
        Some(b"bytes */1000".as_slice())
    );
    assert!(matches!(plan.body, BodyPlan::Empty));
}

#[test]
fn multi_range_yields_206_multipart() {
    let mut facts = base_facts();
    facts.range_header = Some("bytes=0-9,500-509");
    let plan = plan_response(&facts, &base_meta());
    assert_eq!(plan.status, StatusCode::PARTIAL_CONTENT);
    let content_type = header(&plan, "content-type").unwrap();
    assert!(
        String::from_utf8_lossy(content_type)
            .starts_with("multipart/byteranges; boundary=BOUNDARY")
    );
    match plan.body {
        BodyPlan::Multipart {
            ref parts,
            content_length,
            ..
        } => {
            assert_eq!(parts.len(), 2);
            let content_length_header = header(&plan, "content-length").unwrap();
            assert_eq!(
                String::from_utf8_lossy(content_length_header),
                content_length.to_string()
            );
        }
        _ => panic!("expected Multipart body"),
    }
}

#[test]
fn range_falls_back_to_200_when_unparseable() {
    let mut facts = base_facts();
    facts.range_header = Some("bytes=abc");
    let plan = plan_response(&facts, &base_meta());
    assert_eq!(plan.status, StatusCode::OK);
    match plan.body {
        BodyPlan::Whole { len } => assert_eq!(len, 1000),
        _ => panic!("expected Whole body"),
    }
}

#[test]
fn if_range_mismatch_falls_back_to_full_200() {
    let mut facts = base_facts();
    facts.range_header = Some("bytes=0-499");
    facts.conditionals.if_range = Some("\"stale-etag\"");
    let plan = plan_response(&facts, &base_meta());
    assert_eq!(plan.status, StatusCode::OK);
    match plan.body {
        BodyPlan::Whole { len } => assert_eq!(len, 1000),
        _ => panic!("expected Whole body"),
    }
}

#[test]
fn if_range_match_allows_range() {
    let meta = base_meta();
    let etag = make_etag(meta.size, meta.mtime_unix, meta.mtime_nanos);
    let mut facts = base_facts();
    facts.range_header = Some("bytes=0-499");
    facts.conditionals.if_range = Some(Box::leak(etag.into_boxed_str()));
    let plan = plan_response(&facts, &meta);
    assert_eq!(plan.status, StatusCode::PARTIAL_CONTENT);
}

#[test]
fn whole_head_is_exact() {
    let mut facts = base_facts();
    facts.content_encoding = Some("br");
    facts.cache_control = Some("max-age=60");
    let plan = plan_response(&facts, &base_meta());
    let headers: Vec<(&str, &str)> =
        plan.headers.iter().map(|(n, v)| (n.as_str(), v.as_str())).collect();
    assert_eq!(
        headers,
        vec![
            ("content-type", "text/plain; charset=utf-8"),
            ("accept-ranges", "bytes"),
            ("etag", "\"3e8-2ebc98a1.0\""),
            ("last-modified", "Sun, 06 Nov 1994 08:49:37 GMT"),
            ("content-encoding", "br"),
            ("vary", "Accept-Encoding"),
            ("cache-control", "max-age=60"),
            ("content-length", "1000"),
        ]
    );
}

#[test]
fn multipart_body_has_its_content_length() {
    let mut facts = base_facts();
    facts.range_header = Some("bytes=0-9,500-509");
    let plan = plan_response(&facts, &base_meta());
    match &plan.body {
        BodyPlan::Multipart { parts, terminator, content_length } => {
            let mut total = terminator.len() as u64;
            for part in parts {
                total += part.header.len() as u64 + part.range.end - part.range.start + 1;
            }
            assert_eq!(total, *content_length);
            assert_eq!(header(&plan, "content-length"), Some(total.to_string().as_bytes()));
            assert_eq!(
                String::from_utf8_lossy(&parts[1].header),
                "\r\n--BOUNDARY\r\nContent-Type: text/plain; charset=utf-8\r\n\
                 Content-Range: bytes 500-509/1000\r\n\r\n"
            );
        }
        _ => panic!("expected Multipart body"),
    }
}

#[test]
fn head_mirrors_every_kind_of_get() {
    for range in [None, Some("bytes=0-1"), Some("bytes=0-1,5-6"), Some("bytes=5000-")] {
        let mut get = base_facts();
        get.range_header = range;
        let mut head = base_facts();
        head.range_header = range;
        head.method_head = true;
        let a = plan_response(&get, &base_meta());
        let b = plan_response(&head, &base_meta());
        assert_eq!(a.status, b.status);
        assert_eq!(a.headers, b.headers);
        assert!(matches!(b.body, BodyPlan::Empty));
    }
}

#[test]
fn values_that_cannot_be_sent_have_no_plan() {
    let mut facts = base_facts();
    facts.content_type = "text/plain\n".to_string();
    assert!(try_plan_response(&facts, &base_meta()).is_none());
    // A 304 shows no content type.
    facts.conditionals.if_none_match = Some("*");
    assert!(try_plan_response(&facts, &base_meta()).is_some());

    let mut meta = base_meta();
    meta.mtime_unix = -1;
    assert!(try_plan_response(&base_facts(), &meta).is_none());
    let mut undated = base_facts();
    undated.last_modified_enabled = false;
    assert!(try_plan_response(&undated, &meta).is_some());

    let mut cached = base_facts();
    cached.cache_control = Some("a\rb");
    assert!(try_plan_response(&cached, &base_meta()).is_none());

    let mut encoded = base_facts();
    encoded.content_encoding = Some("ü");
    assert!(try_plan_response(&encoded, &base_meta()).is_none());

    let mut bounded = base_facts();
    bounded.range_header = Some("bytes=0-0,2-2");
    bounded.boundary = "\n".to_string();
    assert!(try_plan_response(&bounded, &base_meta()).is_none());
}

#[test]
fn plan_can_be_made_from_given_outcomes() {
    let facts = base_facts();
    let meta = base_meta();
    let plan = plan_for(&facts, &meta, Condition::Proceed, RangeOutcome::Unsatisfiable);
    assert_eq!(plan.status.as_u16(), 416);
    let plan = plan_for(&facts, &meta, Condition::NotModified, RangeOutcome::Full);
    assert_eq!(plan.status.as_u16(), 304);
    assert_eq!(plan.headers.len(), 2);
    let plan = plan_for(&facts, &meta, Condition::PreconditionFailed, RangeOutcome::Full);
    assert_eq!(plan.status.as_u16(), 412);
    assert!(plan.headers.is_empty());
}
