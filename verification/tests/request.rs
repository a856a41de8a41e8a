use cyfs_gateway::process_chain::chain::req::{RequestItem, RequestItemType};
use http_types::{Method, Request, Response, StatusCode, Url};

fn item(with_resp: bool) -> RequestItem {
    let req = Request::new(Method::Get, Url::parse("http://example.com/a").unwrap());
    let resp = if with_resp { Some(Response::new(StatusCode::Ok)) } else { None };
    RequestItem::new(req, resp)
}

#[test]
fn headers_read_back() {
    let mut r = item(false);
    assert_eq!(r.type_, RequestItemType::Normal);
    assert_eq!(r.get_header("x-a"), None);
    r.set_header("X-A", "1");
    assert_eq!(r.get_header("x-a"), Some("1".to_string()));
    r.append_header("x-a", "2");
    assert_eq!(r.get_header("X-A"), Some("1".to_string()));
    r.set_header("x-a", "3");
    assert_eq!(r.get_header("x-a"), Some("3".to_string()));
}

#[test]
fn response_headers_need_a_response() {
    let mut r = item(false);
    assert_eq!(r.set_resp_header("k", "v"), Err("Response not set yet".to_string()));
    assert_eq!(r.get_resp_header("k"), None);
    let mut r = item(true);
    assert_eq!(r.get_resp_header("k"), None);
    assert_eq!(r.set_resp_header("K", "v"), Ok(()));
    assert_eq!(r.get_resp_header("k"), Some("v".to_string()));
}

#[test]
fn virtual_fork_drops_headers() {
    let mut r = item(true);
    r.set_header("a", "1");
    r.set_resp_header("b", "2").unwrap();
    let f = r.fork_virtual();
    assert_eq!(f.type_, RequestItemType::Virtual);
    assert_eq!(f.get_header("a"), None);
    assert_eq!(f.get_resp_header("b"), None);
    assert!(f.resp.is_some());
    assert_eq!(f.get_method(), Method::Get);
}

#[test]
fn virtual_fork_keeps_url_and_status() {
    let req = Request::new(Method::Put, Url::parse("http://example.com/x?y=1").unwrap());
    let r = RequestItem::new(req, Some(Response::new(StatusCode::NotFound)));
    let f = r.fork_virtual();
    assert_eq!(f.req.url().as_str(), "http://example.com/x?y=1");
    assert_eq!(f.get_method(), Method::Put);
    assert_eq!(f.resp.as_ref().unwrap().status(), StatusCode::NotFound);
}

#[test]
fn method_and_content_type() {
    let mut r = item(false);
    r.set_header("x", "y");
    r.set_method(Method::Post);
    assert_eq!(r.get_method(), Method::Post);
    assert_eq!(r.get_header("x"), Some("y".to_string()));
    assert_eq!(r.get_content_type(), None);
    r.set_header("Content-Type", "text/plain");
    assert_eq!(r.get_content_type(), Some("text/plain".to_string()));
}
