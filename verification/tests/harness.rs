//! What the integration harness works out from texts.

use envoy_files::fixtures::{big_file, content_digest, count_bytes, fixture_files};
use envoy_files::harness::{
    admin_address, admin_stat, admin_stat_max, binary_in_wheel, built_module_path,
    count_successes, discover_port, envoy_binary, http_status, io_backend, may_retry, parse_stats,
    pick_wheel, platform_tag, port_number, staged_module, startup_step, successful_responses,
    wheel_entry, wheel_url, Response, Startup, Www, MODULE_NAME,
};
use std::io::{Cursor, Write};
use std::path::PathBuf;
use zip::write::SimpleFileOptions;
use zip::ZipWriter;

#[test]
fn headers_are_found_whatever_their_case() {
    let response = Response {
        status: 200,
        headers: vec![
            ("ETag".to_string(), "a".to_string()),
            ("etag".to_string(), "b".to_string()),
        ],
        body: Vec::new(),
    };
    assert_eq!(response.header("ETAG"), Some("a"));
    assert_eq!(response.header("vary"), None);
}

#[test]
fn statistics_are_read_line_by_line() {
    let body = "a.b: 5\r\nc: d: 7\nhist: P0(1)\nbad\n x :  +9 \na.b: 6\nbig: 18446744073709551616";
    let stats = parse_stats(body);
    let expected: Vec<(String, u64)> = body
        .lines()
        .filter_map(|line| {
            let (key, value) = line.split_once(": ")?;
            Some((key.to_string(), value.trim().parse().ok()?))
        })
        .collect();
    assert_eq!(stats, expected);
    assert_eq!(admin_stat(&stats, "a.b"), 5);
    assert_eq!(admin_stat(&stats, "missing"), 0);
    assert_eq!(admin_stat_max(&stats), 9);
    assert_eq!(admin_stat_max(&[]), 0);
}

#[test]
fn backend_is_the_word_after_the_marker() {
    let log = "x\n[info] envoy-files: serving \"/w\" with io backend compio-poll\n\
               with io backend other\n";
    assert_eq!(io_backend(log).as_deref(), Some("compio-poll"));
    assert_eq!(io_backend("with io backend with io backend x"), None);
    assert_eq!(io_backend("with io backend "), None);
    assert_eq!(io_backend("nothing"), None);
}

#[test]
fn wheels_are_picked_by_platform() {
    let index = "{\"urls\": [\
        {\"filename\": \"e-manylinux_2_31_x86_64.tar.gz\", \"url\": \"http://a\"},\
        {\"url\": \"http://b\"},\
        {\"filename\": \"e-manylinux_2_31_x86_64.whl\", \"url\": \"http://c\"},\
        {\"filename\": \"f-manylinux_2_31_x86_64.whl\", \"url\": \"http://d\"}]}";
    let tag = platform_tag("linux", "x86_64").unwrap();
    assert_eq!(tag, "manylinux_2_31_x86_64");
    assert_eq!(wheel_url(index, tag), Some(Some("http://c".to_string())));
    assert_eq!(wheel_url(index, "win_amd64"), Some(None));
    assert_eq!(wheel_url("[]", tag), None);
    assert_eq!(wheel_url("nonsense", tag), None);
    let files = vec![(None, None), (Some("x-win_amd64.whl".to_string()), None)];
    assert_eq!(pick_wheel(&files, "win_amd64"), Some(None));
    assert_eq!(pick_wheel(&files, "macosx"), None);
}

#[test]
fn platforms_have_their_tags() {
    assert_eq!(platform_tag("macos", "aarch64"), Some("macosx"));
    assert_eq!(platform_tag("linux", "aarch64"), Some("manylinux_2_31_aarch64"));
    assert_eq!(platform_tag("windows", "x86_64"), Some("win_amd64"));
    assert_eq!(platform_tag("macos", "x86_64"), None);
}

#[test]
fn port_is_found_in_the_report() {
    let report = "{\"listener_statuses\": [{\"local_address\": {\"socket_address\": \
                  {\"port_value\": 8080}}}]}";
    assert_eq!(discover_port(report), Some(8080));
    assert_eq!(discover_port("{}"), None);
    assert_eq!(discover_port("x"), None);
    assert_eq!(port_number(65536 + 80), 80);
}

#[test]
fn files_have_their_places() {
    assert_eq!(envoy_binary("/t", false), "/t/envoy-bin/envoy");
    assert_eq!(envoy_binary("/t", true), "/t/envoy-bin/envoy.dll");
    assert_eq!(built_module_path("/t", "linux", true), "/t/debug/libenvoy_files.so");
    assert_eq!(built_module_path("/t", "macos", false), "/t/release/libenvoy_files.dylib");
    assert_eq!(built_module_path("/t", "windows", true), "/t/debug/envoy_files.dll");
    assert_eq!(staged_module(false), "libenvoy_files.so");
    assert_eq!(staged_module(true), "envoy_files.dll");
    assert_eq!(wheel_entry(false), "envoy/_bin/envoy");
    assert_eq!(wheel_entry(true), "envoy/_bin/envoy.dll");
    assert_eq!(MODULE_NAME, "envoy_files");
    let www = Www { root: PathBuf::from("/w"), big_sha256: String::new() };
    assert_eq!(www.path(), &PathBuf::from("/w"));
}

#[test]
fn status_is_the_second_word() {
    assert_eq!(http_status("HTTP/1.1 200 OK"), Some(200));
    assert_eq!(http_status("HTTP/1.1"), None);
    assert_eq!(http_status("HTTP/1.1  200"), None);
    assert_eq!(http_status("HTTP/1.1 70000"), None);
}

#[test]
fn fixture_contents_are_known() {
    let files = fixture_files();
    let find = |name: &str| &files.iter().find(|(n, _)| n == name).unwrap().1;
    assert_eq!(files.len(), 11);
    assert_eq!(find("hello.txt"), b"hello world\n");
    assert_eq!(find("data.bin").len(), 10240);
    assert_eq!(find("data.bin")[..3], [0, 1, 2]);
    assert_eq!(find("app.js"), &b"console.log('envoy files');\n".repeat(10));
    assert_ne!(find("app.js.gz"), find("app.js"));
    assert_eq!(find("app.js.gz")[..2], [0x1f, 0x8b]);
    assert_eq!(count_bytes(5, 3), vec![0, 1, 2, 0, 1]);
}

#[test]
fn big_file_repeats_its_block() {
    let bytes = big_file(65536 + 3);
    let block: Vec<u8> = (0..65536).map(|i| (i % 251) as u8).collect();
    assert_eq!(&bytes[..65536], &block[..]);
    assert_eq!(&bytes[65536..], &[0, 1, 2]);
    assert_eq!(
        content_digest(&big_file(200_000)),
        "e2af4afc36c04339c6f79a6739f060475dd7b9cf44d3d96ebd201678167bc187"
    );
}

#[test]
fn digests_are_hexadecimal() {
    assert_eq!(
        content_digest(b"abc"),
        "ba7816bf8f01cfea414140de5dae2223b00361a396177a9cb410ff61f20015ad"
    );
}

#[test]
fn binary_is_taken_out_of_the_wheel() {
    let mut writer = ZipWriter::new(Cursor::new(Vec::new()));
    for (name, contents) in [("envoy/_bin/envoy", "unix"), ("envoy/_bin/envoy.dll", "windows")] {
        writer.start_file(name, SimpleFileOptions::default()).unwrap();
        writer.write_all(contents.repeat(100).as_bytes()).unwrap();
    }
    let wheel = writer.finish().unwrap().into_inner();
    assert_eq!(binary_in_wheel(&wheel, false), Some("unix".repeat(100).into_bytes()));
    assert_eq!(binary_in_wheel(&wheel, true), Some("windows".repeat(100).into_bytes()));
    assert_eq!(binary_in_wheel(b"nonsense", false), None);
    let empty = ZipWriter::new(Cursor::new(Vec::new())).finish().unwrap().into_inner();
    assert_eq!(binary_in_wheel(&empty, false), None);
}

#[test]
fn startup_waits_for_an_address_and_a_port() {
    assert_eq!(startup_step(false, "", None, false), Startup::Waiting);
    assert_eq!(startup_step(false, " \n", Some(80), false), Startup::Waiting);
    assert_eq!(startup_step(false, "127.0.0.1:1\n", None, false), Startup::Waiting);
    assert_eq!(startup_step(false, "127.0.0.1:1\n", Some(80), false), Startup::Ready(80));
    assert_eq!(startup_step(true, "127.0.0.1:1\n", Some(80), false), Startup::Exited);
    assert_eq!(startup_step(true, "127.0.0.1:1\n", Some(80), true), Startup::TimedOut);
    assert_eq!(admin_address(" 127.0.0.1:1\n").as_deref(), Some("127.0.0.1:1"));
    assert_eq!(admin_address("\n"), None);
}

#[test]
fn requests_are_tried_three_times() {
    assert_eq!((0..10).take_while(|n| may_retry(*n)).count(), 3);
}

#[test]
fn successes_of_a_load_report_are_added_up() {
    let report = "{\"statusCodeDistribution\": {\"200\": 5, \"206\": 2, \"404\": 9, \
                  \"2xx\": \"no\"}}";
    assert_eq!(successful_responses(report), Some(7));
    assert_eq!(successful_responses("{}"), Some(0));
    assert_eq!(successful_responses("nonsense"), None);
    let huge = vec![("200".to_string(), Some(u64::MAX)), ("201".to_string(), Some(1))];
    assert_eq!(count_successes(&huge), None);
    assert_eq!(count_successes(&huge[..1]), Some(u64::MAX));
}
