//! Validators and conditional requests.

use envoy_files::tags::escape_quoted_blanks;
use envoy_files::validators::{
    check_header_text, combine_checks, evaluate_conditionals, format_http_date, if_range_matches,
    make_etag, Check, Condition,
    ConditionalHeaders, Validators,
};

fn validators(etag: &str, last_modified_unix: i64) -> Validators {
    Validators {
        etag: etag.to_string(),
        last_modified_unix,
    }
}

fn no_conditionals() -> ConditionalHeaders<'static> {
    ConditionalHeaders {
        if_none_match: None,
        if_modified_since: None,
        if_match: None,
        if_unmodified_since: None,
        if_range: None,
    }
}

#[test]
fn make_etag_format() {
    assert_eq!(make_etag(0x64, 0x3e8, 0x1f4), "\"64-3e8.1f4\"");
    assert_eq!(make_etag(0, 0, 0), "\"0-0.0\"");
}

#[test]
fn format_http_date_epoch() {
    assert_eq!(format_http_date(0), "Thu, 01 Jan 1970 00:00:00 GMT");
}

#[test]
fn format_http_date_known() {
    assert_eq!(
        format_http_date(784_111_777),
        "Sun, 06 Nov 1994 08:49:37 GMT"
    );
}

#[test]
fn if_match_star_proceeds() {
    let headers = ConditionalHeaders {
        if_match: Some("*"),
        ..no_conditionals()
    };
    let v = validators("\"abc\"", 1000);
    assert_eq!(evaluate_conditionals(&headers, &v), Condition::Proceed);
}

#[test]
fn if_match_mismatch_fails_precondition() {
    let headers = ConditionalHeaders {
        if_match: Some("\"other\""),
        ..no_conditionals()
    };
    let v = validators("\"abc\"", 1000);
    assert_eq!(
        evaluate_conditionals(&headers, &v),
        Condition::PreconditionFailed
    );
}

#[test]
fn if_match_list_with_match_proceeds() {
    let headers = ConditionalHeaders {
        if_match: Some("\"x\", \"abc\", \"y\""),
        ..no_conditionals()
    };
    let v = validators("\"abc\"", 1000);
    assert_eq!(evaluate_conditionals(&headers, &v), Condition::Proceed);
}

#[test]
fn if_match_uses_strong_comparison_weak_etag_fails() {
    let headers = ConditionalHeaders {
        if_match: Some("W/\"abc\""),
        ..no_conditionals()
    };
    let v = validators("\"abc\"", 1000);
    assert_eq!(
        evaluate_conditionals(&headers, &v),
        Condition::PreconditionFailed
    );
}

#[test]
fn if_unmodified_since_only_checked_without_if_match() {
    let headers = ConditionalHeaders {
        if_unmodified_since: Some("Sun, 06 Nov 1994 08:49:37 GMT"),
        ..no_conditionals()
    };
    let v = validators("\"abc\"", 784_111_778); // modified 1s later
    assert_eq!(
        evaluate_conditionals(&headers, &v),
        Condition::PreconditionFailed
    );
}

#[test]
fn if_unmodified_since_ignored_when_if_match_present() {
    let headers = ConditionalHeaders {
        if_match: Some("*"),
        if_unmodified_since: Some("Sun, 06 Nov 1994 08:49:37 GMT"),
        ..no_conditionals()
    };
    let v = validators("\"abc\"", 784_111_778);
    assert_eq!(evaluate_conditionals(&headers, &v), Condition::Proceed);
}

#[test]
fn if_unmodified_since_not_modified_proceeds() {
    let headers = ConditionalHeaders {
        if_unmodified_since: Some("Sun, 06 Nov 1994 08:49:37 GMT"),
        ..no_conditionals()
    };
    let v = validators("\"abc\"", 784_111_777); // exactly equal: satisfied
    assert_eq!(evaluate_conditionals(&headers, &v), Condition::Proceed);
}

#[test]
fn if_none_match_star_not_modified() {
    let headers = ConditionalHeaders {
        if_none_match: Some("*"),
        ..no_conditionals()
    };
    let v = validators("\"abc\"", 1000);
    assert_eq!(evaluate_conditionals(&headers, &v), Condition::NotModified);
}

#[test]
fn if_none_match_weak_comparison_matches() {
    let headers = ConditionalHeaders {
        if_none_match: Some("W/\"abc\""),
        ..no_conditionals()
    };
    let v = validators("\"abc\"", 1000);
    assert_eq!(evaluate_conditionals(&headers, &v), Condition::NotModified);
}

#[test]
fn if_none_match_list_multiple_etags() {
    let headers = ConditionalHeaders {
        if_none_match: Some("\"x\", \"y\", \"abc\""),
        ..no_conditionals()
    };
    let v = validators("\"abc\"", 1000);
    assert_eq!(evaluate_conditionals(&headers, &v), Condition::NotModified);
}

#[test]
fn if_none_match_no_match_proceeds() {
    let headers = ConditionalHeaders {
        if_none_match: Some("\"x\", \"y\""),
        ..no_conditionals()
    };
    let v = validators("\"abc\"", 1000);
    assert_eq!(evaluate_conditionals(&headers, &v), Condition::Proceed);
}

#[test]
fn if_modified_since_only_checked_without_if_none_match() {
    let headers = ConditionalHeaders {
        if_modified_since: Some("Sun, 06 Nov 1994 08:49:37 GMT"),
        ..no_conditionals()
    };
    let v = validators("\"abc\"", 784_111_777); // exactly at date: not modified
    assert_eq!(evaluate_conditionals(&headers, &v), Condition::NotModified);
}

#[test]
fn if_modified_since_ignored_when_if_none_match_present() {
    let headers = ConditionalHeaders {
        if_none_match: Some("\"other\""), // no match -> proceed
        if_modified_since: Some("Sun, 06 Nov 1994 08:49:37 GMT"),
        ..no_conditionals()
    };
    let v = validators("\"abc\"", 784_111_777); // would be NotModified alone
    assert_eq!(evaluate_conditionals(&headers, &v), Condition::Proceed);
}

#[test]
fn if_modified_since_modified_after_proceeds() {
    let headers = ConditionalHeaders {
        if_modified_since: Some("Sun, 06 Nov 1994 08:49:37 GMT"),
        ..no_conditionals()
    };
    let v = validators("\"abc\"", 784_111_778); // 1s after
    assert_eq!(evaluate_conditionals(&headers, &v), Condition::Proceed);
}

#[test]
fn unparseable_if_modified_since_is_ignored() {
    let headers = ConditionalHeaders {
        if_modified_since: Some("garbage"),
        ..no_conditionals()
    };
    let v = validators("\"abc\"", 1000);
    assert_eq!(evaluate_conditionals(&headers, &v), Condition::Proceed);
}

#[test]
fn no_conditionals_proceeds() {
    let v = validators("\"abc\"", 1000);
    assert_eq!(
        evaluate_conditionals(&no_conditionals(), &v),
        Condition::Proceed
    );
}

#[test]
fn if_range_strong_etag_match() {
    let v = validators("\"abc\"", 1000);
    assert!(if_range_matches("\"abc\"", &v));
}

#[test]
fn if_range_weak_etag_never_matches() {
    let v = validators("\"abc\"", 1000);
    assert!(!if_range_matches("W/\"abc\"", &v));
}

#[test]
fn if_range_etag_mismatch() {
    let v = validators("\"abc\"", 1000);
    assert!(!if_range_matches("\"xyz\"", &v));
}

#[test]
fn if_range_date_not_older_serves_range() {
    // The resource's Last-Modified is not after the client's If-Range
    // date, so the range may be served.
    let v = validators("\"abc\"", 784_111_777);
    assert!(if_range_matches("Sun, 06 Nov 1994 08:49:37 GMT", &v));
}

#[test]
fn if_range_date_modified_since_serves_full() {
    // The resource was modified after the client's If-Range date, so the
    // range must not be served.
    let v = validators("\"abc\"", 784_111_778); // 1s after the If-Range date
    assert!(!if_range_matches("Sun, 06 Nov 1994 08:49:37 GMT", &v));
}

#[test]
fn negative_times_have_a_tag_by_their_bit_pattern() {
    assert_eq!(make_etag(1, -1, 2), "\"1-ffffffffffffffff.2\"");
    assert_eq!(make_etag(1, i64::MIN, 0), "\"1-8000000000000000.0\"");
}

#[test]
fn different_files_have_different_tags() {
    let tags = [
        make_etag(0x12, 0x3, 0),
        make_etag(0x1, 0x23, 0),
        make_etag(0x1, 0x2, 3),
        make_etag(0x12, 0x3, 1),
    ];
    for (i, a) in tags.iter().enumerate() {
        for b in &tags[i + 1..] {
            assert_ne!(a, b);
        }
    }
}

#[test]
fn own_validators_come_back_as_not_modified() {
    let tag = make_etag(7, 784_111_777, 5);
    let date = format_http_date(784_111_777);
    let v = validators(&tag, 784_111_777);
    let by_tag = ConditionalHeaders {
        if_none_match: Some(&tag),
        ..no_conditionals()
    };
    assert_eq!(evaluate_conditionals(&by_tag, &v), Condition::NotModified);
    let by_date = ConditionalHeaders {
        if_modified_since: Some(&date),
        ..no_conditionals()
    };
    assert_eq!(evaluate_conditionals(&by_date, &v), Condition::NotModified);
    let unless = ConditionalHeaders {
        if_match: Some(&tag),
        ..no_conditionals()
    };
    assert_eq!(evaluate_conditionals(&unless, &v), Condition::Proceed);
    assert!(if_range_matches(&tag, &v));
    assert!(if_range_matches(&date, &v));
}

#[test]
fn headers_that_are_no_header_values_are_ignored() {
    let v = validators("\"abc\"", 1000);
    let headers = ConditionalHeaders {
        if_match: Some("\"other\"\n"),
        if_none_match: Some("*\u{7f}"),
        ..no_conditionals()
    };
    assert_eq!(evaluate_conditionals(&headers, &v), Condition::Proceed);
    assert!(!if_range_matches("\"abc\"\n", &v));
    assert!(check_header_text("a b\tü"));
    assert!(!check_header_text("a\r\nb"));
}

#[test]
fn malformed_resource_tag_matches_nothing() {
    let v = validators("abc", 1000);
    let headers = ConditionalHeaders {
        if_match: Some("\"other\""),
        if_none_match: Some("*"),
        ..no_conditionals()
    };
    assert_eq!(evaluate_conditionals(&headers, &v), Condition::Proceed);
    assert!(!if_range_matches("\"abc\"", &v));
}

#[test]
fn times_without_a_date_are_compared_all_the_same() {
    let v = validators("\"abc\"", -5);
    let headers = ConditionalHeaders {
        if_modified_since: Some("Thu, 01 Jan 1970 00:00:00 GMT"),
        ..no_conditionals()
    };
    assert_eq!(evaluate_conditionals(&headers, &v), Condition::NotModified);
    assert!(!if_range_matches("\"abc\"", &v));
}

#[test]
fn checks_add_up_in_order() {
    let all = [Check::Absent, Check::Ignored, Check::Passes, Check::Fails];
    for a in all {
        for b in all {
            for c in all {
                for d in all {
                    let expected = if a == Check::Fails || (a == Check::Absent && b == Check::Fails)
                    {
                        Condition::PreconditionFailed
                    } else if c == Check::Fails || (c == Check::Absent && d == Check::Fails) {
                        Condition::NotModified
                    } else {
                        Condition::Proceed
                    };
                    assert_eq!(combine_checks(a, b, c, d), expected);
                }
            }
        }
    }
}

#[test]
fn blanks_inside_quotes_are_escaped() {
    assert_eq!(escape_quoted_blanks("W/\"a b\", \"\t!\" x"), "W/\"a!_b\", \"!-!!\" x");
    assert_eq!(escape_quoted_blanks("Sun, 06 Nov 1994 !"), "Sun, 06 Nov 1994 !");
    assert_eq!(escape_quoted_blanks("\"open a"), "\"open!_a");
}

#[test]
fn tags_with_blanks_are_told_apart() {
    let v = validators("\"a b\"", 1000);
    for (tag, current) in [("\"a b\"", true), ("\"a\tb\"", false), ("\"a!_b\"", false)] {
        let headers = ConditionalHeaders { if_none_match: Some(tag), ..no_conditionals() };
        let expected = if current { Condition::NotModified } else { Condition::Proceed };
        assert_eq!(evaluate_conditionals(&headers, &v), expected);
        assert_eq!(if_range_matches(tag, &v), current);
    }
}

#[test]
fn lists_with_blanks_match_tag_by_tag() {
    let v = validators("\"a b\"", 1000);
    let matching = ["\"x\", \"a b\"", "\"a b\" , W/\"c, d\"", " \t\"a b\"\t ,"];
    for list in matching {
        let headers = ConditionalHeaders { if_match: Some(list), ..no_conditionals() };
        assert_eq!(evaluate_conditionals(&headers, &v), Condition::Proceed, "{list:?}");
        let headers = ConditionalHeaders { if_none_match: Some(list), ..no_conditionals() };
        assert_eq!(evaluate_conditionals(&headers, &v), Condition::NotModified, "{list:?}");
    }
    let other = ["\"x\", \"a!_b\"", "\"a\tb\"", "\"ab\""];
    for list in other {
        let headers = ConditionalHeaders { if_match: Some(list), ..no_conditionals() };
        assert_eq!(evaluate_conditionals(&headers, &v), Condition::PreconditionFailed, "{list:?}");
        let headers = ConditionalHeaders { if_none_match: Some(list), ..no_conditionals() };
        assert_eq!(evaluate_conditionals(&headers, &v), Condition::Proceed, "{list:?}");
    }
    // A list whose quotes do not pair up names no tags and is ignored.
    let broken = Some("\"x, \"a b\", \"y\"");
    let headers =
        ConditionalHeaders { if_match: broken, if_none_match: broken, ..no_conditionals() };
    assert_eq!(evaluate_conditionals(&headers, &v), Condition::Proceed);
    // A weak tag matches only weakly.
    let weak = Some("\"x\", W/\"a b\"");
    let headers = ConditionalHeaders { if_match: weak, ..no_conditionals() };
    assert_eq!(evaluate_conditionals(&headers, &v), Condition::PreconditionFailed);
    let headers = ConditionalHeaders { if_none_match: weak, ..no_conditionals() };
    assert_eq!(evaluate_conditionals(&headers, &v), Condition::NotModified);
}
