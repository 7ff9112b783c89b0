//! Negotiation of pre-compressed variants.

use envoy_files::encoding::{negotiate_precompressed, Encoding};

fn all() -> [Encoding; 3] {
    [Encoding::brotli(), Encoding::gzip(), Encoding::zstd()]
}

fn parse_quality(text: &str) -> Option<u32> {
    text.parse::<f32>().ok().map(f32::to_bits)
}

fn negotiate(accept_encoding: Option<&str>, order: &[Encoding]) -> Vec<Encoding> {
    negotiate_precompressed(accept_encoding, order, parse_quality)
}

#[test]
fn no_header_returns_empty() {
    assert_eq!(negotiate(None, &all()), Vec::new());
}

#[test]
fn simple_gzip_only() {
    let result = negotiate(Some("gzip"), &all());
    assert_eq!(result, vec![Encoding::gzip()]);
}

#[test]
fn multiple_codings_sorted_by_server_preference_when_q_tied() {
    let result = negotiate(Some("gzip, br"), &all());
    assert_eq!(result, vec![Encoding::brotli(), Encoding::gzip(),]);
}

#[test]
fn q_values_reorder_preference() {
    let result = negotiate(Some("br;q=0.2, gzip;q=0.8"), &all());
    assert_eq!(result, vec![Encoding::gzip(), Encoding::brotli(),]);
}

#[test]
fn q_zero_excludes_coding() {
    let result = negotiate(Some("gzip;q=0, br"), &all());
    assert_eq!(result, vec![Encoding::brotli()]);
}

#[test]
fn wildcard_allows_unlisted_coding() {
    let result = negotiate(Some("*;q=0.5"), &all());
    assert_eq!(result.len(), 3);
}

#[test]
fn wildcard_zero_excludes_all_unlisted() {
    let result = negotiate(Some("*;q=0"), &all());
    assert_eq!(result, Vec::new());
}

#[test]
fn explicit_zero_overrides_wildcard() {
    let result = negotiate(Some("*;q=1, gzip;q=0"), &all());
    assert_eq!(result, vec![Encoding::brotli(), Encoding::zstd(),]);
}

#[test]
fn server_order_restricts_candidates() {
    let result = negotiate(Some("gzip, br, zstd"), &[Encoding::gzip()]);
    assert_eq!(result, vec![Encoding::gzip()]);
}

#[test]
fn case_insensitive_coding_names() {
    let result = negotiate(Some("GZIP"), &all());
    assert_eq!(result.len(), 1);
    assert_eq!(result[0].content_encoding, "gzip");
}

#[test]
fn malformed_q_value_yields_empty() {
    assert_eq!(
        negotiate(Some("gzip;q=notanumber"), &all()),
        Vec::new()
    );
}

#[test]
fn empty_header_yields_empty() {
    assert_eq!(negotiate(Some(""), &all()), Vec::new());
}

#[test]
fn whitespace_tolerant() {
    let result = negotiate(Some(" gzip ; q=0.5 , br ; q=1.0 "), &all());
    assert_eq!(result, vec![Encoding::brotli(), Encoding::gzip(),]);
}

#[test]
fn last_quality_parameter_counts_and_each_must_be_a_number() {
    assert_eq!(negotiate(Some("gzip;q=0;q=1"), &all()), vec![Encoding::gzip()]);
    assert_eq!(negotiate(Some("gzip;q=1;q=0"), &all()), Vec::new());
    assert_eq!(negotiate(Some("gzip;q=x;q=1"), &all()), Vec::new());
    assert_eq!(negotiate(Some("gzip;level=9"), &all()), vec![Encoding::gzip()]);
}

#[test]
fn nameless_item_makes_the_header_malformed() {
    assert_eq!(negotiate(Some("gzip, ;q=1"), &all()), Vec::new());
}

#[test]
fn odd_numbers_follow_floating_point() {
    assert_eq!(
        negotiate(Some("gzip;q=inf, br;q=1"), &all()),
        vec![Encoding::gzip(), Encoding::brotli()]
    );
    assert_eq!(negotiate(Some("gzip;q=nan"), &all()), Vec::new());
    assert_eq!(negotiate(Some("gzip;q=-1"), &all()), Vec::new());
    assert_eq!(negotiate(Some("gzip;q=-0"), &all()), Vec::new());
    assert_eq!(negotiate(Some("gzip;q=1e-45"), &all()), vec![Encoding::gzip()]);
    // Equal once rounded, so the server's order decides.
    assert_eq!(
        negotiate(Some("gzip;q=0.30000001, br;q=0.3"), &all()),
        vec![Encoding::brotli(), Encoding::gzip()]
    );
}

#[test]
fn first_entry_for_a_coding_counts() {
    assert_eq!(negotiate(Some("gzip;q=0, GZIP;q=1"), &all()), Vec::new());
}
