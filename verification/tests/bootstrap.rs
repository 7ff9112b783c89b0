//! Envoy bootstrap configurations.

use envoy_files::bootstrap::{
    builtin_file_server_config, cachev2_composition_config, dynamic_module_filter, extension_config,
    mounts_config, quote_json, root_config, terminal_config,
};
use serde_json::Value;

fn read(text: &str) -> Value {
    let value: Value = serde_json::from_str(text).unwrap();
    // Sorted keys and no blanks.
    assert_eq!(value.to_string(), text);
    value
}

const CFG: &str = r#"{"root":"/a \"b\"\\c"}"#;

#[test]
fn quoted_strings_match_serde() {
    let mut all = String::new();
    for code in 0..0x100u32 {
        all.push(char::from_u32(code).unwrap());
    }
    all.push_str("\u{2028}\u{1f600}");
    assert_eq!(quote_json(&all), serde_json::to_string(&all).unwrap());
    assert_eq!(serde_json::from_str::<String>(&quote_json(&all)).unwrap(), all);
}

#[test]
fn module_filter_carries_its_configuration() {
    let filter = read(&dynamic_module_filter(CFG, false));
    let typed = &filter["typed_config"];
    assert_eq!(filter["name"], "envoy_files");
    assert_eq!(typed["filter_config"]["value"], CFG);
    assert_eq!(typed["terminal_filter"], false);
    assert_eq!(typed["dynamic_module_config"]["name"], "envoy_files");
    assert_eq!(typed["filter_name"], "envoy_files");
}

#[test]
fn terminal_configuration_has_one_filter() {
    let config = read(&terminal_config(CFG));
    let listener = &config["static_resources"]["listeners"][0];
    assert_eq!(listener["address"]["socket_address"]["address"], "127.0.0.1");
    let manager = &listener["filter_chains"][0]["filters"][0]["typed_config"];
    assert_eq!(manager["stat_prefix"], "ingress_http");
    assert_eq!(manager["generate_request_id"], false);
    assert_eq!(manager["http_filters"], Value::Array(vec![read(&dynamic_module_filter(CFG, true))]));
    assert_eq!(manager["route_config"]["virtual_hosts"][0]["domains"][0], "*");
    assert_eq!(config["admin"]["address"]["socket_address"]["port_value"], 0);
}

#[test]
fn mounts_are_looked_up_by_prefix() {
    let mounts = vec![
        ("/assets/".to_string(), "old".to_string()),
        ("/assets/".to_string(), "{}".to_string()),
        ("/static/".to_string(), CFG.to_string()),
    ];
    let config = read(&mounts_config(&mounts));
    let manager =
        &config["static_resources"]["listeners"][0]["filter_chains"][0]["filters"][0]["typed_config"];
    let matcher = &manager["http_filters"][0]["typed_config"]["xds_matcher"]["matcher_tree"];
    assert_eq!(matcher["input"]["typed_config"]["header_name"], ":path");
    let map = &matcher["prefix_match_map"]["map"];
    assert_eq!(map.as_object().unwrap().len(), 2);
    assert_eq!(
        map["/static/"]["action"]["typed_config"]["typed_config"],
        read(&dynamic_module_filter(CFG, true))
    );
    assert_eq!(
        map["/assets/"]["action"]["typed_config"]["typed_config"],
        read(&dynamic_module_filter("{}", true))
    );
    let route = &manager["route_config"]["virtual_hosts"][0]["routes"][0];
    assert_eq!(route["direct_response"]["status"], 404);
    assert_eq!(route["direct_response"]["body"]["inline_string"], "not found");
    assert_eq!(manager["http_filters"][1]["name"], "envoy.filters.http.router");
    read(&mounts_config(&[]));
}

#[test]
fn builtin_server_maps_its_root() {
    let config = read(&builtin_file_server_config("/a\"b"));
    let manager =
        &config["static_resources"]["listeners"][0]["filter_chains"][0]["filters"][0]["typed_config"];
    let server = &manager["http_filters"][0]["typed_config"];
    assert_eq!(server["path_mappings"][0]["file_path_prefix"], "/a\"b");
    assert_eq!(server["path_mappings"][0]["request_path_prefix"], "/");
    assert_eq!(server["manager_config"]["thread_pool"]["thread_count"], 4);
    assert_eq!(server["content_types"]["html"], "text/html");
}

#[test]
fn cache_routes_into_the_internal_listener() {
    let config = read(&cachev2_composition_config(CFG));
    let resources = &config["static_resources"];
    let outer = &resources["listeners"][0]["filter_chains"][0]["filters"][0]["typed_config"];
    assert_eq!(outer["stat_prefix"], "outer");
    assert_eq!(outer["http_filters"][0]["name"], "envoy.filters.http.cache");
    assert_eq!(
        outer["route_config"]["virtual_hosts"][0]["routes"][0]["route"]["cluster"],
        resources["clusters"][0]["name"]
    );
    let inner = &resources["listeners"][1];
    assert_eq!(inner["internal_listener"], serde_json::from_str::<Value>("{}").unwrap());
    let manager = &inner["filter_chains"][0]["filters"][0]["typed_config"];
    assert_eq!(manager["http_filters"][0], read(&dynamic_module_filter(CFG, true)));
    let endpoint = &resources["clusters"][0]["load_assignment"]["endpoints"][0]["lb_endpoints"][0];
    assert_eq!(
        endpoint["endpoint"]["address"]["envoy_internal_address"]["server_listener_name"],
        inner["name"]
    );
    assert_eq!(config["bootstrap_extensions"][0]["name"], "envoy.bootstrap.internal_listener");
}

#[test]
fn root_configuration_names_the_root() {
    assert_eq!(root_config("/srv/www", false), r#"{"root":"/srv/www"}"#);
    assert_eq!(
        root_config("/srv/www", true),
        r#"{"force_blocking":true,"root":"/srv/www"}"#
    );
    let config = read(&root_config("/a \"b\"\\c", true));
    assert_eq!(config["root"], "/a \"b\"\\c");
    assert_eq!(config["force_blocking"], true);
}

#[test]
fn extension_configuration_maps_the_root() {
    let config = read(&extension_config("/a \"b\"\\c"));
    assert_eq!(config["path_mappings"].as_array().unwrap().len(), 1);
    assert_eq!(config["path_mappings"][0]["request_path_prefix"], "/");
    assert_eq!(config["path_mappings"][0]["file_path_prefix"], "/a \"b\"\\c");
    assert_eq!(config["content_types"]["html"], "text/html");
    assert_eq!(config["content_types"]["bin"], "application/octet-stream");
    assert_eq!(config["default_content_type"], "application/octet-stream");
    assert_eq!(config["directory_index_files"][0], "index.html");
}
