use std::collections::HashSet;

use revproxy::codec::{decode_query, encode_query};
use revproxy::encoding::{resolve, resolve_label};
use revproxy::headers::sanitize_headers;
use revproxy::response::{reassemble, rewrite_self_references, transform_body};
use revproxy::rewrite::apply_rules;
use revproxy::server::{error_page, rust_error_to_page, sanitize_authority, unprocessable_entity};
use revproxy::text::replace_literal;
use revproxy::{RegexWrapper, RevProxyRequest, RevProxyServer, RevProxyServerError, RewriteRules, UriWrapper};

fn directive(query: &str, local: &str) -> RevProxyRequest {
    let mut d = decode_query(query).expect("query should decode");
    d.local_addr = local.to_string();
    d
}

fn header_list(pairs: &[(&str, &str)]) -> Vec<(String, Vec<u8>)> {
    pairs.iter().map(|(n, v)| (n.to_string(), v.as_bytes().to_vec())).collect()
}

#[test]
fn plain_text_passes_unchanged() {
    let d = directive("dest=http://example.com", "proxy.local");
    let headers = header_list(&[("content-type", "text/html; charset=utf-8")]);
    let out = reassemble(&d, "http", 200, &headers, b"hello").unwrap();
    assert_eq!(out.status, 200);
    assert_eq!(out.body, b"hello".to_vec());
    assert_eq!(out.headers, headers);
}

#[test]
fn links_to_destination_come_back_through_proxy() {
    let d = directive("dest=http://example.com&host_rewrite=true", "proxy.local");
    let body = b"<a href='http://example.com/x'>";
    let out = transform_body(&d, "http", Some(b"text/html"), body).unwrap();
    let text = String::from_utf8(out).unwrap();
    assert_eq!(
        text,
        "<a href='http://proxy.local/?default=false&host_rewrite=true&dest=http%3A%2F%2Fexample.com%2Fx'>"
    );
    assert!(text.contains("http://proxy.local/?"));
    assert!(!text.contains("http://example.com"));
}

#[test]
fn rewritten_link_decodes_to_link_target() {
    let d = directive("dest=http://example.com", "proxy.local");
    let out = rewrite_self_references("see http://example.com/x", &d, "http");
    let query = out.split("/?").nth(1).unwrap();
    let back = decode_query(query).unwrap();
    assert_eq!(back.dest.as_str(), "http://example.com/x");
}

#[test]
fn custom_rule_replaces_text() {
    let d = directive(
        "dest=http://example.com&custom_rewrite[0][find]=foo&custom_rewrite[0][replace]=bar",
        "proxy.local",
    );
    let out = transform_body(&d, "http", Some(b"text/plain; charset=utf-8"), b"foo foo").unwrap();
    assert_eq!(out, b"bar bar".to_vec());
}

#[test]
fn binary_body_untouched() {
    let d = directive(
        "dest=http://example.com&custom_rewrite[0][find]=.&custom_rewrite[0][replace]=x",
        "proxy.local",
    );
    let body: Vec<u8> = vec![0x89, 0x50, 0x4e, 0x47, 0x0d, 0x0a, 0x1a, 0x0a, 0xff, 0xfe, 0x00, 0x80];
    let out = transform_body(&d, "http", Some(b"image/png"), &body).unwrap();
    assert_eq!(out, body);
}

#[test]
fn unknown_charset_passes_body_through() {
    let d = directive("dest=http://example.com&custom_rewrite[0][find]=a&custom_rewrite[0][replace]=b", "p");
    assert!(resolve(Some(b"text/html; charset=no-such-charset")).is_none());
    let out = transform_body(&d, "http", Some(b"text/html; charset=no-such-charset"), b"aaa").unwrap();
    assert_eq!(out, b"aaa".to_vec());
}

#[test]
fn missing_destination_is_refused() {
    let err = RevProxyServer::process_query(Some("default=true")).unwrap_err();
    assert_eq!(err, RevProxyServerError::MalformedDirective);
    let page = error_page(err);
    assert_eq!(page.status, 422);
    assert_eq!(page.body, b"Malformed directive in query".to_vec());
    let server = RevProxyServer::new(false, true);
    let err = server.parse_request(Some("append[0][0]=a"), "/?append[0][0]=a", Some(b"proxy")).unwrap_err();
    assert_eq!(err, RevProxyServerError::MalformedDirective);
}

#[test]
fn missing_query_is_no_query() {
    assert_eq!(RevProxyServer::process_query(None).unwrap_err(), RevProxyServerError::NoQuery);
    assert_eq!(RevProxyServer::process_query(Some("")).unwrap_err(), RevProxyServerError::NoQuery);
    let page = error_page(RevProxyServerError::NoQuery);
    assert_eq!(page.body, b"No query".to_vec());
}

#[test]
fn drop_and_append_headers() {
    let d = directive(
        "dest=http://example.com&drop[0]=Accept-Language&append[0][0]=X-Trace&append[0][1]=1",
        "proxy.local",
    );
    let inbound = header_list(&[("host", "proxy.local"), ("accept-language", "en"), ("accept", "*/*")]);
    let out = sanitize_headers(&inbound, &d).unwrap();
    assert_eq!(out, header_list(&[("accept", "*/*"), ("x-trace", "1")]));
    assert_eq!(inbound.len(), 3);
}

#[test]
fn keep_host_header_when_asked() {
    let d = directive("dest=http://example.com&default=true", "p");
    let inbound = header_list(&[("host", "proxy.local"), ("accept", "*/*")]);
    assert_eq!(sanitize_headers(&inbound, &d).unwrap(), inbound);
}

#[test]
fn append_keeps_duplicates() {
    let d = directive(
        "dest=http://example.com&append[0][0]=X-A&append[0][1]=1&append[1][0]=x-a&append[1][1]=2",
        "p",
    );
    let out = sanitize_headers(&header_list(&[("x-a", "0")]), &d).unwrap();
    assert_eq!(out, header_list(&[("x-a", "0"), ("x-a", "1"), ("x-a", "2")]));
}

#[test]
fn sanitize_twice_gives_same_header_set() {
    let d = directive(
        "dest=http://example.com&drop[0]=accept&append[0][0]=X-Trace&append[0][1]=1&append[1][0]=Accept&append[1][1]=text",
        "p",
    );
    let inbound = header_list(&[("host", "h"), ("accept", "*/*"), ("user-agent", "t")]);
    let once = sanitize_headers(&inbound, &d).unwrap();
    let twice = sanitize_headers(&once, &d).unwrap();
    let a: HashSet<_> = once.into_iter().collect();
    let b: HashSet<_> = twice.into_iter().collect();
    assert_eq!(a, b);
}

#[test]
fn invalid_header_name_and_value() {
    let d = directive("dest=http://example.com&append[0][0]=bad%20name&append[0][1]=1", "p");
    assert_eq!(sanitize_headers(&Vec::new(), &d).unwrap_err(), RevProxyServerError::InvalidHeaderName);
    let d = directive("dest=http://example.com&append[0][0]=ok&append[0][1]=a%0Ab", "p");
    assert_eq!(sanitize_headers(&Vec::new(), &d).unwrap_err(), RevProxyServerError::InvalidHeaderValue);
}

#[test]
fn round_trip_keeps_every_wire_field() {
    let q = "default=true&append[0][0]=X-A&append[0][1]=v%20one&append[1][0]=X-B&append[1][1]=%C3%A9&drop[0]=Cookie&drop[1]=Referer&host_rewrite=false&custom_rewrite[0][find]=(%3F%3C%3Dx)y&custom_rewrite[0][replace]=%241z&dest=https://example.com:8443/a/b?c=d";
    let d = directive(q, "caller");
    let encoded = encode_query(&d);
    let back = decode_query(&encoded).unwrap();
    assert_eq!(back.no_remove_host, true);
    assert_eq!(back.host_rewrite, false);
    assert_eq!(back.append, vec![("X-A".to_string(), "v one".to_string()), ("X-B".to_string(), "é".to_string())]);
    assert_eq!(back.drop, vec!["Cookie".to_string(), "Referer".to_string()]);
    assert_eq!(back.custom_rewrite.len(), 1);
    assert_eq!(back.custom_rewrite[0].find.as_str(), "(?<=x)y");
    assert_eq!(back.custom_rewrite[0].replace, "$1z");
    assert_eq!(back.dest.as_str(), "https://example.com:8443/a/b?c=d");
    assert_eq!(back.local_addr, "");
    assert_eq!(encode_query(&back), encoded);
}

#[test]
fn encode_default_directive() {
    let d = directive("dest=http://example.com", "p");
    assert_eq!(encode_query(&d), "default=false&host_rewrite=true&dest=http%3A%2F%2Fexample.com%2F");
}

#[test]
fn out_of_order_index_is_malformed() {
    assert!(decode_query("dest=http://example.com&drop[1]=a").is_none());
    assert!(decode_query("dest=http://example.com&drop[0]=a&drop[0]=b").is_none());
    assert!(decode_query("dest=http://example.com&append[0][0]=a").is_none());
    assert!(decode_query("dest=http://example.com&default=yes").is_none());
    assert!(decode_query("dest=http://example.com&custom_rewrite[0][find]=(&custom_rewrite[0][replace]=x").is_none());
    assert!(decode_query("dest=%ZZ").is_none());
    assert!(decode_query("dest=/relative").is_none());
}

#[test]
fn unknown_keys_ignored_and_last_scalar_wins() {
    let d = decode_query("&other=1&dest=http://a.com&dest=http://b.com&&").unwrap();
    assert_eq!(d.dest.as_str(), "http://b.com/");
    assert_eq!(d.host_rewrite, true);
    assert_eq!(d.no_remove_host, false);
}

#[test]
fn rules_apply_in_order() {
    let rules = vec![
        RewriteRules { find: RegexWrapper::new("a").unwrap(), replace: "b".to_string() },
        RewriteRules { find: RegexWrapper::new("b").unwrap(), replace: "c".to_string() },
    ];
    let both = apply_rules("ab".to_string(), &rules).unwrap();
    let first = apply_rules("ab".to_string(), &rules[..1].iter().map(|r| RewriteRules {
        find: RegexWrapper::new(r.find.as_str()).unwrap(),
        replace: r.replace.clone(),
    }).collect()).unwrap();
    let second = apply_rules(first.clone(), &vec![RewriteRules {
        find: RegexWrapper::new("b").unwrap(),
        replace: "c".to_string(),
    }]).unwrap();
    assert_eq!(first, "bb");
    assert_eq!(both, "cc");
    assert_eq!(both, second);
}

#[test]
fn rule_with_groups_and_lookaround() {
    let rules = vec![
        RewriteRules { find: RegexWrapper::new(r"(\w+)@(\w+)").unwrap(), replace: "$2 at $1".to_string() },
        RewriteRules { find: RegexWrapper::new(r"(?<=at )\w+").unwrap(), replace: "X".to_string() },
    ];
    assert_eq!(apply_rules("me@home".to_string(), &rules).unwrap(), "home at X");
}

#[test]
fn regex_that_does_not_compile() {
    assert!(RegexWrapper::new("(").is_none());
    let w = RegexWrapper::new("a+").unwrap();
    assert_eq!(w.as_str(), "a+");
    assert!(w.eq(&RegexWrapper::new("a+").unwrap()));
}

#[test]
fn rewrite_engine_error_is_reported() {
    let rules = vec![RewriteRules { find: RegexWrapper::new(r"^(a|a)*(?=c)").unwrap(), replace: "x".to_string() }];
    let text = "a".repeat(64);
    assert!(apply_rules(text.clone(), &rules).is_none());
    let mut d = directive("dest=http://example.com&host_rewrite=false", "p");
    d.custom_rewrite = rules;
    assert_eq!(
        transform_body(&d, "http", None, text.as_bytes()).unwrap_err(),
        RevProxyServerError::RewriteEngineError
    );
    assert_eq!(error_page(RevProxyServerError::RewriteEngineError).status, 500);
}

#[test]
fn latin1_body_is_decoded_then_sent_as_utf8() {
    let d = directive("dest=http://example.com", "p");
    let out = transform_body(&d, "http", Some(b"text/html; charset=iso-8859-1"), &[0x63, 0x61, 0x66, 0xe9]).unwrap();
    assert_eq!(out, "café".as_bytes().to_vec());
    assert_eq!(resolve_label(Some(b"text/html; charset=iso-8859-1")), "iso-8859-1");
    assert_eq!(resolve_label(Some(b"text/html")), "utf-8");
    assert_eq!(resolve_label(None), "utf-8");
}

#[test]
fn self_rewrite_off_changes_nothing() {
    let d = directive("dest=http://example.com&host_rewrite=false", "proxy.local");
    let body = b"<a href='http://example.com/x'>";
    assert_eq!(transform_body(&d, "http", None, body).unwrap(), body.to_vec());
}

#[test]
fn literal_replace_is_left_to_right() {
    assert_eq!(replace_literal("aaa", "aa", "b"), "ba");
    assert_eq!(replace_literal("abc", "", "x"), "abc");
    assert_eq!(replace_literal("a.c abc", ".", "-"), "a-c abc");
}

#[test]
fn destination_must_be_absolute() {
    assert_eq!(UriWrapper::try_from("http://example.com").unwrap().as_str(), "http://example.com/");
    assert!(UriWrapper::try_from("/x").is_none());
    assert!(UriWrapper::try_from("example.com").is_none());
    assert!(UriWrapper::try_from("not a uri").is_none());
}

#[test]
fn caller_authority_from_host_header() {
    assert_eq!(RevProxyServer::get_local_addr(Some(b"proxy.local:443")).unwrap(), "proxy.local");
    assert_eq!(RevProxyServer::get_local_addr(Some(b"proxy.local:80")).unwrap(), "proxy.local");
    assert_eq!(RevProxyServer::get_local_addr(Some(b"proxy.local:8080")).unwrap(), "proxy.local:8080");
    assert_eq!(RevProxyServer::get_local_addr(None).unwrap_err(), RevProxyServerError::NoHostField);
    assert_eq!(
        RevProxyServer::get_local_addr(Some(&[0x70, 0x01])).unwrap_err(),
        RevProxyServerError::InvalidHeaderValue
    );
    assert_eq!(sanitize_authority("a:443b"), "a:443b");
}

#[test]
fn parse_request_modes() {
    let server = RevProxyServer::new(false, true);
    let d = server
        .parse_request(Some("dest=http://example.com"), "/?dest=http://example.com", Some(b"proxy.local:80"))
        .unwrap();
    assert_eq!(d.local_addr, "proxy.local");
    assert_eq!(d.dest.as_str(), "http://example.com/");
    assert_eq!(
        server.parse_request(Some("dest=http://example.com"), "/", None).unwrap_err(),
        RevProxyServerError::NoHostField
    );
    let server = RevProxyServer::new(true, false);
    let d = server.parse_request(None, "http://example.com/a", Some(b"h")).unwrap();
    assert_eq!(d.dest.as_str(), "http://example.com/a");
    assert_eq!(d.host_rewrite, true);
    let server = RevProxyServer::new(false, false);
    assert_eq!(
        server.parse_request(None, "/a", Some(b"h")).unwrap_err(),
        RevProxyServerError::MalformedDirective
    );
}

#[test]
fn reassembly_drops_framing_headers() {
    let d = directive("dest=http://example.com&custom_rewrite[0][find]=a&custom_rewrite[0][replace]=bbb", "p");
    let headers = header_list(&[
        ("content-type", "text/plain"),
        ("content-length", "1"),
        ("transfer-encoding", "chunked"),
        ("x-keep", "1"),
    ]);
    let out = reassemble(&d, "http", 404, &headers, b"a").unwrap();
    assert_eq!(out.status, 404);
    assert_eq!(out.body, b"bbb".to_vec());
    assert_eq!(out.headers, header_list(&[("content-type", "text/plain"), ("x-keep", "1")]));
}

#[test]
fn error_pages() {
    let ok = RevProxyServer::mk_response("done".to_string());
    assert_eq!(ok.status, 200);
    assert_eq!(ok.body, b"done".to_vec());
    let page = rust_error_to_page(Err(RevProxyServerError::UpstreamError));
    assert_eq!(page.status, 422);
    assert_eq!(error_page(RevProxyServerError::UpstreamError).status, 502);
    assert_eq!(unprocessable_entity(RevProxyServerError::NoQuery).body, b"No query".to_vec());
    assert_eq!(rust_error_to_page(Err(RevProxyServerError::RewriteEngineError)).status, 422);
    assert_eq!(page.body, b"Upstream request failed".to_vec());
    assert_eq!(RevProxyServerError::NoHostField.message(), "No Host field in request");
    assert_eq!(RevProxyServerError::InvalidHeaderName.status(), 422);
    assert_eq!(RevProxyServerError::ReassemblyError.status(), 500);
    let page = rust_error_to_page(Ok(RevProxyServer::mk_response("x".to_string())));
    assert_eq!(page.body, b"x".to_vec());
}

#[test]
fn fresh_directive_defaults() {
    let d = RevProxyRequest::new(UriWrapper::try_from("http://a.com").unwrap());
    assert_eq!(d.no_remove_host, false);
    assert_eq!(d.host_rewrite, true);
    assert!(revproxy::directive::_default_true());
    assert_eq!(encode_query(&d), "default=false&host_rewrite=true&dest=http%3A%2F%2Fa.com%2F");
}

#[test]
fn prepare_builds_forwarded_request() {
    let server = RevProxyServer::new(false, true);
    let inbound = header_list(&[("host", "proxy.local:443"), ("accept-language", "en"), ("accept", "*/*")]);
    let query = "dest=http://example.com&drop[0]=Accept-Language&append[0][0]=X-Trace&append[0][1]=1";
    let forward = server.prepare(Some(query), "/", Some(b"proxy.local:443"), &inbound).unwrap();
    assert_eq!(forward.directive.local_addr, "proxy.local");
    assert_eq!(forward.headers, header_list(&[("accept", "*/*"), ("x-trace", "1")]));
    let err = server.prepare(Some("default=true"), "/", Some(b"h"), &inbound).unwrap_err();
    assert_eq!(err, RevProxyServerError::MalformedDirective);
    let bad = "dest=http://example.com&append[0][0]=a%20b&append[0][1]=1";
    assert_eq!(
        server.prepare(Some(bad), "/", Some(b"h"), &inbound).unwrap_err(),
        RevProxyServerError::InvalidHeaderName
    );
}

#[test]
fn escaped_brackets_in_keys_are_read() {
    let q = "dest=http%3A%2F%2Fexample.com&drop%5B0%5D=Cookie&append%5B0%5D%5B0%5D=X-A&append%5B0%5D%5B1%5D=1";
    let d = decode_query(q).unwrap();
    assert_eq!(d.drop, vec!["Cookie".to_string()]);
    assert_eq!(d.append, vec![("X-A".to_string(), "1".to_string())]);
    assert_eq!(d.dest.as_str(), "http://example.com/");
}

#[test]
fn destination_port_must_be_in_range() {
    assert!(UriWrapper::try_from("http://example.com:99999/").is_none());
    assert!(decode_query("dest=http://example.com:65536").is_none());
    assert_eq!(UriWrapper::try_from("http://example.com:65535/a").unwrap().as_str(), "http://example.com:65535/a");
    assert_eq!(UriWrapper::try_from("http://[::1]:8080").unwrap().as_str(), "http://[::1]:8080/");
    assert_eq!(UriWrapper::try_from("http://user:pw@example.com/").unwrap().as_str(), "http://user:pw@example.com/");
}
