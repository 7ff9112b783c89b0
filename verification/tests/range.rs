//! Range planning and multipart framing.

use envoy_files::range::{
    content_range, content_range_unsatisfied, multipart_parts, parse_one_spec, plan_ranges,
    try_multipart_parts, ByteRange, RangeOutcome, RangePolicy, SpecResult,
};

fn policy(allow_multi: bool, max_parts: usize) -> RangePolicy {
    RangePolicy {
        allow_multi,
        max_parts,
    }
}

fn default_policy() -> RangePolicy {
    policy(true, 50)
}

fn single(outcome: RangeOutcome) -> ByteRange {
    match outcome {
        RangeOutcome::Single(range) => range,
        other => panic!("expected Single, got {other:?}"),
    }
}

#[test]
fn full_byte_at_start() {
    let r = single(plan_ranges("bytes=0-0", 10_000, &default_policy()));
    assert_eq!(r, ByteRange { start: 0, end: 0 });
}

#[test]
fn simple_prefix_range() {
    let r = single(plan_ranges("bytes=0-499", 10_000, &default_policy()));
    assert_eq!(r, ByteRange { start: 0, end: 499 });
}

#[test]
fn simple_middle_range() {
    let r = single(plan_ranges("bytes=500-999", 10_000, &default_policy()));
    assert_eq!(
        r,
        ByteRange {
            start: 500,
            end: 999
        }
    );
}

#[test]
fn range_suffix_range() {
    let r = single(plan_ranges("bytes=-500", 10_000, &default_policy()));
    assert_eq!(
        r,
        ByteRange {
            start: 9_500,
            end: 9_999
        }
    );
}

#[test]
fn open_ended_range_near_end() {
    let r = single(plan_ranges("bytes=9500-", 10_000, &default_policy()));
    assert_eq!(
        r,
        ByteRange {
            start: 9_500,
            end: 9_999
        }
    );
}

#[test]
fn open_ended_range_from_start() {
    let r = single(plan_ranges("bytes=0-", 10_000, &default_policy()));
    assert_eq!(
        r,
        ByteRange {
            start: 0,
            end: 9_999
        }
    );
}

#[test]
fn suffix_zero_is_unsatisfiable() {
    assert_eq!(
        plan_ranges("bytes=-0", 10_000, &default_policy()),
        RangeOutcome::Unsatisfiable
    );
}

#[test]
fn start_past_end_is_unsatisfiable() {
    assert_eq!(
        plan_ranges("bytes=99999-", 10_000, &default_policy()),
        RangeOutcome::Unsatisfiable
    );
}

#[test]
fn suffix_larger_than_total_covers_whole_file() {
    let r = single(plan_ranges("bytes=-999999", 10_000, &default_policy()));
    assert_eq!(
        r,
        ByteRange {
            start: 0,
            end: 9_999
        }
    );
}

#[test]
fn ascending_multi_range() {
    match plan_ranges("bytes=0-0,-1", 10_000, &default_policy()) {
        RangeOutcome::Multi(ranges) => {
            assert_eq!(
                ranges,
                vec![
                    ByteRange { start: 0, end: 0 },
                    ByteRange {
                        start: 9_999,
                        end: 9_999
                    },
                ]
            );
        }
        other => panic!("expected Multi, got {other:?}"),
    }
}

#[test]
fn overlapping_multi_range_falls_back_to_full() {
    assert_eq!(
        plan_ranges("bytes=0-10,5-15", 10_000, &default_policy()),
        RangeOutcome::Full
    );
}

#[test]
fn descending_multi_range_falls_back_to_full() {
    assert_eq!(
        plan_ranges("bytes=10-20,0-5", 10_000, &default_policy()),
        RangeOutcome::Full
    );
}

#[test]
fn too_many_parts_falls_back_to_full() {
    let specs: Vec<String> = (0..51).map(|i| format!("{i}-{i}")).collect();
    let header = format!("bytes={}", specs.join(","));
    assert_eq!(
        plan_ranges(&header, 10_000, &default_policy()),
        RangeOutcome::Full
    );
}

#[test]
fn exactly_max_parts_is_multi() {
    let specs: Vec<String> = (0..50).map(|i| format!("{i}-{i}")).collect();
    let header = format!("bytes={}", specs.join(","));
    match plan_ranges(&header, 10_000, &default_policy()) {
        RangeOutcome::Multi(ranges) => assert_eq!(ranges.len(), 50),
        other => panic!("expected Multi, got {other:?}"),
    }
}

#[test]
fn multi_disallowed_by_policy_falls_back_to_full() {
    assert_eq!(
        plan_ranges("bytes=0-0,-1", 10_000, &policy(false, 50)),
        RangeOutcome::Full
    );
}

#[test]
fn malformed_syntax_falls_back_to_full() {
    assert_eq!(
        plan_ranges("bytes=abc", 10_000, &default_policy()),
        RangeOutcome::Full
    );
}

#[test]
fn wrong_unit_falls_back_to_full() {
    assert_eq!(
        plan_ranges("octets=0-1", 10_000, &default_policy()),
        RangeOutcome::Full
    );
}

#[test]
fn empty_specs_falls_back_to_full() {
    assert_eq!(
        plan_ranges("bytes=", 10_000, &default_policy()),
        RangeOutcome::Full
    );
}

#[test]
fn whitespace_after_comma_is_tolerated() {
    let r = single(plan_ranges("bytes=0-0", 10_000, &default_policy()));
    assert_eq!(r, ByteRange { start: 0, end: 0 });
    match plan_ranges("bytes=0-0, 9999-9999", 10_000, &default_policy()) {
        RangeOutcome::Multi(ranges) => assert_eq!(ranges.len(), 2),
        other => panic!("expected Multi, got {other:?}"),
    }
}

#[test]
fn zero_total_length_is_unsatisfiable() {
    assert_eq!(
        plan_ranges("bytes=0-0", 0, &default_policy()),
        RangeOutcome::Unsatisfiable
    );
    assert_eq!(
        plan_ranges("bytes=-1", 0, &default_policy()),
        RangeOutcome::Unsatisfiable
    );
    assert_eq!(
        plan_ranges("bytes=0-", 0, &default_policy()),
        RangeOutcome::Unsatisfiable
    );
}

#[test]
fn end_less_than_start_is_unsatisfiable() {
    assert_eq!(
        plan_ranges("bytes=500-100", 10_000, &default_policy()),
        RangeOutcome::Unsatisfiable
    );
}

#[test]
fn end_beyond_total_is_clamped() {
    let r = single(plan_ranges("bytes=0-999999", 10_000, &default_policy()));
    assert_eq!(
        r,
        ByteRange {
            start: 0,
            end: 9_999
        }
    );
}

#[test]
fn content_range_header_format() {
    assert_eq!(
        content_range(&ByteRange { start: 0, end: 499 }, 10_000),
        "bytes 0-499/10000"
    );
}

#[test]
fn content_range_unsatisfied_format() {
    assert_eq!(content_range_unsatisfied(10_000), "bytes */10000");
}

#[test]
fn multipart_single_part_framing_and_length() {
    let ranges = vec![ByteRange { start: 0, end: 4 }];
    let (parts, terminator, content_length) =
        multipart_parts(&ranges, "text/plain", 100, "BOUNDARY");

    assert_eq!(parts.len(), 1);
    let expected_header =
        b"--BOUNDARY\r\nContent-Type: text/plain\r\nContent-Range: bytes 0-4/100\r\n\r\n";
    assert_eq!(parts[0].header, expected_header);
    assert_eq!(terminator, b"\r\n--BOUNDARY--\r\n");

    let mut assembled = Vec::new();
    for part in &parts {
        assembled.extend_from_slice(&part.header);
        assembled.extend(std::iter::repeat_n(b'x', 5)); // 5 bytes of body: 0..=4
    }
    assembled.extend_from_slice(&terminator);
    assert_eq!(assembled.len() as u64, content_length);
}

#[test]
fn multipart_multi_part_content_length_matches_assembled_bytes() {
    let file: Vec<u8> = (0..=255u16).map(|b| b as u8).collect(); // 256 bytes
    let ranges = vec![
        ByteRange { start: 0, end: 9 }, // 10 bytes
        ByteRange {
            start: 100,
            end: 149,
        }, // 50 bytes
        ByteRange {
            start: 200,
            end: 255,
        }, // 56 bytes
    ];
    let (parts, terminator, content_length) = multipart_parts(
        &ranges,
        "application/octet-stream",
        file.len() as u64,
        "B123",
    );

    assert_eq!(parts.len(), 3);
    // First part has no leading CRLF; subsequent parts do.
    assert!(parts[0].header.starts_with(b"--B123\r\n"));
    assert!(parts[1].header.starts_with(b"\r\n--B123\r\n"));
    assert!(parts[2].header.starts_with(b"\r\n--B123\r\n"));

    let mut assembled = Vec::new();
    for part in &parts {
        assembled.extend_from_slice(&part.header);
        let start = part.range.start as usize;
        let end = part.range.end as usize;
        assembled.extend_from_slice(&file[start..=end]);
    }
    assembled.extend_from_slice(&terminator);

    assert_eq!(assembled.len() as u64, content_length);
}

#[test]
fn numbers_beyond_every_position_are_well_formed() {
    let plan = |header: &str| plan_ranges(header, 10, &default_policy());
    let whole = RangeOutcome::Single(ByteRange { start: 0, end: 9 });
    assert_eq!(plan("bytes=0-18446744073709551616"), whole);
    assert_eq!(plan("bytes=-99999999999999999999999"), whole);
    assert_eq!(plan("bytes=18446744073709551616-"), RangeOutcome::Unsatisfiable);
    assert_eq!(
        plan("bytes=18446744073709551616-18446744073709551617"),
        RangeOutcome::Unsatisfiable
    );
    assert_eq!(
        plan("bytes=4-5,18446744073709551616-"),
        RangeOutcome::Single(ByteRange { start: 4, end: 5 })
    );
    let r = single(plan_ranges("bytes=0-18446744073709551615", 10, &default_policy()));
    assert_eq!(r, ByteRange { start: 0, end: 9 });
    let whole = single(plan_ranges("bytes=0-", u64::MAX, &default_policy()));
    assert_eq!(whole, ByteRange { start: 0, end: u64::MAX - 1 });
}

#[test]
fn unsatisfiable_specs_do_not_count() {
    let r = single(plan_ranges("bytes=99-, 0-1, ,-0", 10, &default_policy()));
    assert_eq!(r, ByteRange { start: 0, end: 1 });
    assert_eq!(
        plan_ranges("bytes=0-1,x", 10, &default_policy()),
        RangeOutcome::Full
    );
}

#[test]
fn multi_ranges_ascend_within_the_resource() {
    match plan_ranges("bytes=0-1,3-4,-2", 10, &default_policy()) {
        RangeOutcome::Multi(ranges) => {
            let mut total = 0;
            for pair in ranges.windows(2) {
                assert!(pair[0].end < pair[1].start);
            }
            for r in &ranges {
                assert!(r.start <= r.end && r.end < 10);
                total += r.end - r.start + 1;
            }
            assert!(total <= 10);
        }
        other => panic!("expected Multi, got {other:?}"),
    }
}

#[test]
fn multipart_length_that_does_not_fit_is_refused() {
    let huge = [ByteRange { start: 0, end: u64::MAX - 1 }];
    assert!(try_multipart_parts(&huge, "a/b", u64::MAX, "B").is_none());
    let small = [ByteRange { start: 3, end: 4 }];
    let (parts, terminator, len) = try_multipart_parts(&small, "a/b", 10, "B").unwrap();
    assert_eq!(parts.len(), 1);
    assert_eq!(len, parts[0].header.len() as u64 + 2 + terminator.len() as u64);
}

#[test]
fn open_range_is_a_closed_one_to_the_largest_position() {
    for first in ["0", "3", "9", "10", "18446744073709551615", "x"] {
        for total in [0, 1, 10, u64::MAX] {
            assert_eq!(
                plan_ranges(&format!("bytes={first}-"), total, &default_policy()),
                plan_ranges(
                    &format!("bytes={first}-18446744073709551615"),
                    total,
                    &default_policy()
                )
            );
        }
    }
}

#[test]
fn one_spec_asks_for_available_bytes() {
    let range = |start: u64, end: u64| Some(SpecResult::Range(ByteRange { start, end }));
    assert_eq!(parse_one_spec("2-5", 10), range(2, 5));
    assert_eq!(parse_one_spec("2-99", 10), range(2, 9));
    assert_eq!(parse_one_spec("10-11", 10), Some(SpecResult::Unsatisfiable));
    assert_eq!(parse_one_spec("5-2", 10), Some(SpecResult::Unsatisfiable));
    assert_eq!(parse_one_spec("-3", 10), range(7, 9));
    for total in [0, 1, 10, u64::MAX] {
        for first in ["0", "5", "18446744073709551615"] {
            assert_eq!(
                parse_one_spec(&format!("{first}-"), total),
                parse_one_spec(&format!("{first}-18446744073709551615"), total)
            );
        }
    }
    for malformed in ["", "-", "5", "a-5", "5-a", "1-2-3", " 1-2"] {
        assert_eq!(parse_one_spec(malformed, 10), None);
    }
}
