use deno_ops::http::build_response;
use deno_ops::http::get_declaration;
use deno_ops::http::next_request_response;
use deno_ops::http::next_request_step;
use deno_ops::http::request_has_body;
use deno_ops::http::ConnPoll;
use deno_ops::http::NextRequestStep;
use deno_ops::http::RespondArgs;
use deno_ops::http::RespondError;
use std::path::PathBuf;

fn hdr(k: &str, v: &str) -> (String, String) {
    (k.to_string(), v.to_string())
}

fn body_bytes(body: hyper::Body) -> Vec<u8> {
    let rt = tokio::runtime::Runtime::new().unwrap();
    rt.block_on(hyper::body::to_bytes(body)).unwrap().to_vec()
}

#[test]
fn declaration_is_next_to_the_manifest() {
    assert_eq!(
        get_declaration("/srv/op_crates/http"),
        PathBuf::from("/srv/op_crates/http/lib.deno_http.d.ts")
    );
}

#[test]
fn response_with_data_carries_status_headers_and_body() {
    let headers = vec![hdr("x-a", "b"), hdr("Content-Type", "text/plain")];
    let built = build_response(404, headers, Some(b"hi".to_vec())).unwrap();
    assert_eq!(built.response.status().as_u16(), 404);
    assert_eq!(built.response.headers().get("x-a").unwrap(), "b");
    assert_eq!(built.response.headers().get("content-type").unwrap(), "text/plain");
    assert!(built.body_sender.is_none());
    assert_eq!(body_bytes(built.response.into_body()), b"hi".to_vec());
}

#[test]
fn response_without_data_streams_its_body() {
    let built = build_response(200, vec![], None).unwrap();
    assert_eq!(built.response.status().as_u16(), 200);
    assert!(built.response.headers().is_empty());
    assert!(built.body_sender.is_some());
}

#[test]
fn repeated_header_names_are_all_kept() {
    let headers = vec![hdr("set-cookie", "a=1"), hdr("set-cookie", "b=2")];
    let built = build_response(200, headers, Some(vec![])).unwrap();
    let values: Vec<_> = built.response.headers().get_all("set-cookie").iter().collect();
    assert_eq!(values, vec!["a=1", "b=2"]);
}

#[test]
fn header_name_with_space_is_refused() {
    let r = build_response(200, vec![hdr("bad name", "v")], None);
    assert_eq!(r.err(), Some(RespondError::Http));
}

#[test]
fn empty_header_name_is_refused() {
    let r = build_response(200, vec![hdr("", "v")], Some(vec![1]));
    assert_eq!(r.err(), Some(RespondError::Http));
}

#[test]
fn non_ascii_header_name_is_refused() {
    let r = build_response(200, vec![hdr("caf\u{e9}", "v")], None);
    assert_eq!(r.err(), Some(RespondError::Http));
}

#[test]
fn header_value_with_newline_is_refused() {
    let r = build_response(200, vec![hdr("x-a", "b"), hdr("x-b", "a\nb")], None);
    assert_eq!(r.err(), Some(RespondError::Http));
}

#[test]
fn header_value_with_tab_and_non_ascii_is_accepted() {
    let built = build_response(201, vec![hdr("x-a", "a\tcaf\u{e9}")], None).unwrap();
    assert_eq!(built.response.status().as_u16(), 201);
    assert_eq!(
        built.response.headers().get("x-a").unwrap().as_bytes(),
        "a\tcaf\u{e9}".as_bytes()
    );
}

#[test]
fn extreme_status_codes_are_set() {
    assert_eq!(build_response(100, vec![], None).unwrap().response.status().as_u16(), 100);
    assert_eq!(build_response(999, vec![], None).unwrap().response.status().as_u16(), 999);
}

#[test]
fn failed_poll_fails_the_op() {
    assert_eq!(next_request_step(ConnPoll::Failed, true), NextRequestStep::Fail);
    assert_eq!(next_request_step(ConnPoll::Failed, false), NextRequestStep::Fail);
}

#[test]
fn arrived_request_is_served() {
    assert_eq!(
        next_request_step(ConnPoll::Pending, true),
        NextRequestStep::Serve { connection_closed: false }
    );
    assert_eq!(
        next_request_step(ConnPoll::Done, true),
        NextRequestStep::Serve { connection_closed: true }
    );
}

#[test]
fn no_request_waits() {
    assert_eq!(next_request_step(ConnPoll::Pending, false), NextRequestStep::Wait);
    assert_eq!(next_request_step(ConnPoll::Done, false), NextRequestStep::Wait);
}

#[test]
fn body_presence_follows_the_size_hint() {
    assert!(!request_has_body(Some(0)));
    assert!(request_has_body(Some(12)));
    assert!(request_has_body(None));
}

#[test]
fn next_request_answer_has_no_headers() {
    let r = next_request_response(true, Some(7), 8, "GET".to_string(), "/x?y=1".to_string());
    assert!(r.0);
    assert_eq!(r.1, Some(7));
    assert_eq!(r.2, 8);
    assert_eq!(r.3, "GET");
    assert!(r.4.is_empty());
    assert_eq!(r.5, "/x?y=1");
}

#[test]
fn respond_args_hold_their_fields() {
    let a = RespondArgs(3, 204, vec![hdr("k", "v")]);
    assert_eq!(a.0, 3);
    assert_eq!(a.1, 204);
    assert_eq!(a.2, vec![hdr("k", "v")]);
}

#[test]
fn many_valid_headers_are_all_kept() {
    let headers: Vec<_> = (0..300).map(|i| hdr(&format!("x-h{}", i), "v")).collect();
    let built = build_response(200, headers, None).unwrap();
    assert_eq!(built.response.headers().len(), 300);
    assert_eq!(built.response.headers().get("x-h299").unwrap(), "v");
}

#[test]
fn streamed_response_carries_status_and_headers() {
    let headers = vec![hdr("x-a", "1"), hdr("x-b", "2"), hdr("x-a", "3")];
    let built = build_response(202, headers, None).unwrap();
    assert_eq!(built.response.status().as_u16(), 202);
    let a: Vec<_> = built.response.headers().get_all("x-a").iter().collect();
    assert_eq!(a, vec!["1", "3"]);
    assert_eq!(built.response.headers().get("x-b").unwrap(), "2");
    assert!(built.body_sender.is_some());
}

#[test]
fn ten_thousand_values_under_one_name_are_kept() {
    let headers: Vec<_> = (0..10000).map(|i| hdr("set-cookie", &format!("c{}", i))).collect();
    let built = build_response(200, headers, Some(vec![])).unwrap();
    let values: Vec<_> = built.response.headers().get_all("set-cookie").iter().collect();
    assert_eq!(values.len(), 10000);
    assert_eq!(values[0], "c0");
    assert_eq!(values[9999], "c9999");
}
