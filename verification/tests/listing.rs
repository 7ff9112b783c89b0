//! Directory listings.

use envoy_files::listing::{
    humanize_size, percent_encode_path_segment, render_listing, DirEntry,
};
use envoy_files::path::{resolve_request_path, PathPolicy, ValidatedPath};

fn entry(name: &str, is_dir: bool, size: u64, mtime_unix: i64) -> DirEntry {
    DirEntry {
        name: name.to_string(),
        is_dir,
        size,
        mtime_unix,
    }
}

#[test]
fn root_path_has_no_parent_link() {
    let html = render_listing("/", true, &[]);
    assert!(!html.contains("../"));
}

#[test]
fn non_root_path_has_parent_link() {
    let html = render_listing("/sub/", false, &[entry("a.txt", false, 10, 0)]);
    assert!(html.contains("<a href=\"../\">../</a>"));
}

#[test]
fn root_at_non_slash_url_still_has_no_parent_link() {
    // A served root mounted at a non-"/" URL must not offer a link above
    // itself, even though the heading path is not "/".
    let html = render_listing("/static/", true, &[entry("a.txt", false, 10, 0)]);
    assert!(!html.contains("../"));
}

#[test]
fn directories_sort_before_files() {
    let entries = vec![
        entry("zeta.txt", false, 1, 0),
        entry("alpha_dir", true, 0, 0),
    ];
    let html = render_listing("/", true, &entries);
    let dir_pos = html.find("alpha_dir").unwrap();
    let file_pos = html.find("zeta.txt").unwrap();
    assert!(dir_pos < file_pos);
}

#[test]
fn case_insensitive_alphabetical_order() {
    let entries = vec![
        entry("Banana.txt", false, 1, 0),
        entry("apple.txt", false, 1, 0),
        entry("Cherry.txt", false, 1, 0),
    ];
    let html = render_listing("/", true, &entries);
    let apple = html.find("apple.txt").unwrap();
    let banana = html.find("Banana.txt").unwrap();
    let cherry = html.find("Cherry.txt").unwrap();
    assert!(apple < banana);
    assert!(banana < cherry);
}

#[test]
fn directories_get_trailing_slash_in_name_and_href() {
    let html = render_listing("/", true, &[entry("docs", true, 0, 0)]);
    assert!(html.contains("href=\"docs/\""));
    assert!(html.contains(">docs/<"));
}

#[test]
fn xss_script_tag_name_is_escaped() {
    let html = render_listing(
        "/",
        true,
        &[entry("<script>alert(1)</script>", false, 1, 0)],
    );
    assert!(!html.contains("<script>alert(1)</script>"));
    assert!(html.contains("&lt;script&gt;alert(1)&lt;/script&gt;"));
}

#[test]
fn quote_in_name_is_percent_encoded_in_href() {
    let html = render_listing("/", true, &[entry("a\"b", false, 1, 0)]);
    // The quote is percent-encoded in the href (so it can't break out of
    // the attribute); in the text cell it's harmless and left as-is.
    assert!(html.contains("href=\"a%22b\""));
    assert!(!html.contains("href=\"a\"b\""));
    assert!(html.contains(">a\"b<"));
}

#[test]
fn percent_in_name_is_percent_encoded() {
    let html = render_listing("/", true, &[entry("100%.txt", false, 1, 0)]);
    assert!(html.contains("href=\"100%25.txt\""));
    assert!(html.contains(">100%.txt<"));
}

#[test]
fn size_humanization() {
    assert_eq!(humanize_size(0), "0 B");
    assert_eq!(humanize_size(1023), "1023 B");
    assert_eq!(humanize_size(1024), "1.0 KiB");
    assert_eq!(humanize_size(1536), "1.5 KiB");
    assert_eq!(humanize_size(1024 * 1024), "1.0 MiB");
    assert_eq!(humanize_size(1024 * 1024 * 1024), "1.0 GiB");
}

#[test]
fn mtime_uses_http_date_format() {
    let html = render_listing("/", true, &[entry("a.txt", false, 1, 0)]);
    assert!(html.contains("Thu, 01 Jan 1970 00:00:00 GMT"));
}

#[test]
fn empty_directory_renders_without_entries() {
    let html = render_listing("/", true, &[]);
    assert!(html.contains("<table>"));
    assert!(!html.contains("<tr><td><a href=\""));
}

#[test]
fn sizes_match_floating_point_formatting() {
    let by_floats = |size: u64| -> String {
        if size < 1024 {
            return format!("{size} B");
        }
        let units = ["KiB", "MiB", "GiB", "TiB"];
        let mut value = size as f64 / 1024.0;
        let mut unit = 0;
        while value >= 1024.0 && unit < units.len() - 1 {
            value /= 1024.0;
            unit += 1;
        }
        format!("{:.1} {}", value, units[unit])
    };
    let mut sizes: Vec<u64> = (0..20_000).collect();
    for shift in 10..64 {
        let base = 1u64 << shift;
        for delta in [0u64, 1, 2, 3, 511, 512, 513, 1023, 1024, 1025] {
            sizes.push(base.wrapping_add(delta));
            sizes.push(base.wrapping_sub(delta));
        }
        // Halfway between two tenths.
        sizes.push(base + base / 4);
        sizes.push(base + base / 4 * 3);
        sizes.push(base + base / 20);
    }
    sizes.push(u64::MAX);
    sizes.push(u64::MAX - 1024);
    for size in sizes {
        assert_eq!(humanize_size(size), by_floats(size), "{size}");
    }
}

#[test]
fn halfway_sizes_round_to_even() {
    assert_eq!(humanize_size(1280), "1.2 KiB");
    assert_eq!(humanize_size(1792), "1.8 KiB");
    assert_eq!(humanize_size(1024 * 1024 * 1024 * 1024 * 3), "3.0 TiB");
}

#[test]
fn whole_page_is_exact() {
    let entries = vec![
        entry("b & c.txt", false, 2048, 0),
        entry("a", true, 4096, 784_111_777),
    ];
    assert_eq!(
        render_listing("/x<y>/", false, &entries),
        "<!DOCTYPE html>\n<html>\n<head>\n<meta charset=\"utf-8\">\n\
         <title>Index of /x&lt;y&gt;/</title>\n</head>\n<body>\n\
         <h1>Index of /x&lt;y&gt;/</h1>\n<table>\n\
         <tr><th>Name</th><th>Size</th><th>Last modified</th></tr>\n\
         <tr><td><a href=\"../\">../</a></td><td></td><td></td></tr>\n\
         <tr><td><a href=\"a/\">a/</a></td><td></td><td>Sun, 06 Nov 1994 08:49:37 GMT</td></tr>\n\
         <tr><td><a href=\"b%20%26%20c.txt\">b &amp; c.txt</a></td><td>2.0 KiB</td>\
         <td>Thu, 01 Jan 1970 00:00:00 GMT</td></tr>\n\
         </table>\n</body>\n</html>\n"
    );
}

#[test]
fn names_that_fold_alike_are_ordered_by_their_letters() {
    let entries = vec![
        entry("ÄB", false, 1, 0),
        entry("äb", false, 1, 0),
        entry("Äb", false, 1, 0),
    ];
    let html = render_listing("/", true, &entries);
    let upper = html.find(">ÄB<").unwrap();
    let mixed = html.find(">Äb<").unwrap();
    let lower = html.find(">äb<").unwrap();
    assert!(upper < mixed && mixed < lower);
}

#[test]
fn hrefs_encode_every_reserved_byte() {
    assert_eq!(percent_encode_path_segment("a-b_c.d~e/ü%"), "a-b_c.d~e%2F%C3%BC%25");
}

#[test]
fn hrefs_resolve_back_to_the_name() {
    let policy = PathPolicy { serve_dotfiles: false, max_path_len: 4096 };
    for name in ["a b", "100%.txt", "ü?#&", "q'\"<>"] {
        let href = format!("/{}", percent_encode_path_segment(name));
        match resolve_request_path(&href, &policy) {
            ValidatedPath::Accept { relative, .. } => assert_eq!(relative, name),
            ValidatedPath::Reject(reason) => panic!("{name}: {reason:?}"),
        }
    }
}
