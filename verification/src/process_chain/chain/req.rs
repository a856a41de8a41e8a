//! A request with its response, as a chain works on it.
use vstd::prelude::*;
use http_types::{Method, Request, Response};
use crate::process_chain::block::context::{HeaderMap, header_first};
use crate::process_chain::http::{
    content_type_header, content_type_text, empty_headers, method_eq, method_of, request_append_header, request_content_type,
    request_fork, request_header_values, request_headers, request_insert_header, request_method,
    request_set_method, response_fork, response_header_values, response_headers,
    response_insert_header, status_of, url_of,
};
use crate::text::{all_ascii, ascii_lower, owned, string_views};

verus! {

/// Whether a request item is written for real or only for an assignment.
#[derive(Debug, Clone, Copy, PartialEq, Eq, Structural)]
pub enum RequestItemType {
    /// Written for real.
    Normal,
    /// Written only for an assignment.
    Virtual,
}

/// A request, its response once there is one, and how it is written.
pub struct RequestItem {
    pub type_: RequestItemType,
    pub req: Request,
    pub resp: Option<Response>,
}

/// The headers of a response that may not be there yet.
pub open spec fn resp_headers_of(resp: Option<Response>) -> Option<HeaderMap> {
    match resp {
        Some(r) => Some(response_headers(r)),
        None => None,
    }
}

impl RequestItem {
    pub fn new(req: Request, resp: Option<Response>) -> (r: Self)
        ensures
            r.type_ == RequestItemType::Normal,
            r.req == req,
            r.resp == resp,
    {
        Self { type_: RequestItemType::Normal, req, resp }
    }

    /// A virtual copy: the same method and URL, the response's status,
    /// and no headers at all.
    pub fn fork_virtual(&self) -> (r: Self)
        ensures
            r.type_ == RequestItemType::Virtual,
            request_headers(r.req) == empty_headers(),
            method_of(r.req) == method_of(self.req),
            url_of(r.req) == url_of(self.req),
            r.resp is Some == self.resp is Some,
            r.resp matches Some(x) ==> response_headers(x) == empty_headers() && status_of(x)
                == status_of(self.resp->0),
    {
        let resp = match &self.resp {
            Some(r) => Some(response_fork(r)),
            None => None,
        };
        Self { type_: RequestItemType::Virtual, req: request_fork(&self.req), resp }
    }

    /// The request's method.
    pub fn get_method(&self) -> (r: Method)
        ensures
            r == method_of(self.req),
    {
        request_method(&self.req)
    }

    /// Sets the method; the headers stay as they are, and a request that
    /// already has the method is left untouched.
    pub fn set_method(&mut self, method: Method)
        ensures
            final(self).type_ == old(self).type_,
            final(self).resp == old(self).resp,
            request_headers(final(self).req) == request_headers(old(self).req),
            method_of(final(self).req) == method,
            method_of(old(self).req) == method ==> final(self).req == old(self).req,
    {
        let current = request_method(&self.req);
        if method_eq(&current, &method) {
            return;
        }
        request_set_method(&mut self.req, method);
    }

    /// The first value of request header `key`. A header that is there
    /// with no value at all would make the read of its first value panic,
    /// so `requires` leaves that case out.
    pub fn get_header(&self, key: &str) -> (r: Option<String>)
        requires
            all_ascii(key@),
            request_headers(self.req).contains_key(ascii_lower(key@)) ==> request_headers(
                self.req,
            )[ascii_lower(key@)].len() > 0,
        ensures
            r matches Some(s) ==> header_first(request_headers(self.req), key@) == Some(s@),
            r is None ==> header_first(request_headers(self.req), key@) is None,
    {
        match request_header_values(&self.req, key) {
            Some(vs) => {
                assert(string_views(vs@)[0] == vs@[0]@);
                Some(owned(vs[0].as_str()))
            },
            None => None,
        }
    }

    /// Sets request header `key` to `value` alone.
    pub fn set_header(&mut self, key: &str, value: &str)
        requires
            all_ascii(key@),
            all_ascii(value@),
        ensures
            final(self).type_ == old(self).type_,
            final(self).resp == old(self).resp,
            request_headers(final(self).req) == request_headers(old(self).req).insert(
                ascii_lower(key@),
                seq![value@],
            ),
    {
        request_insert_header(&mut self.req, key, value);
    }

    /// Adds `value` after the values of request header `key`.
    pub fn append_header(&mut self, key: &str, value: &str)
        requires
            all_ascii(key@),
            all_ascii(value@),
        ensures
            final(self).type_ == old(self).type_,
            final(self).resp == old(self).resp,
            request_headers(final(self).req) == (if request_headers(old(self).req).contains_key(
                ascii_lower(key@),
            ) {
                request_headers(old(self).req).insert(
                    ascii_lower(key@),
                    request_headers(old(self).req)[ascii_lower(key@)].push(value@),
                )
            } else {
                request_headers(old(self).req).insert(ascii_lower(key@), seq![value@])
            }),
    {
        request_append_header(&mut self.req, key, value);
    }

    /// The first value of response header `key`; `None` while there is
    /// no response.
    pub fn get_resp_header(&self, key: &str) -> (r: Option<String>)
        requires
            self.resp is Some ==> all_ascii(key@),
            self.resp is Some && response_headers(self.resp->0).contains_key(ascii_lower(key@))
                ==> response_headers(self.resp->0)[ascii_lower(key@)].len() > 0,
        ensures
            r matches Some(s) ==> self.resp is Some && header_first(
                response_headers(self.resp->0),
                key@,
            ) == Some(s@),
            r is None ==> self.resp is None || header_first(
                response_headers(self.resp->0),
                key@,
            ) is None,
    {
        match &self.resp {
            Some(resp) => match response_header_values(resp, key) {
                Some(vs) => {
                    assert(string_views(vs@)[0] == vs@[0]@);
                    Some(owned(vs[0].as_str()))
                },
                None => None,
            },
            None => None,
        }
    }

    /// Sets response header `key` to `value` alone; refused while there
    /// is no response.
    pub fn set_resp_header(&mut self, key: &str, value: &str) -> (r: Result<(), String>)
        requires
            old(self).resp is Some ==> all_ascii(key@) && all_ascii(value@),
        ensures
            r is Err <==> old(self).resp is None,
            r matches Err(m) ==> m@ == "Response not set yet"@,
            final(self).type_ == old(self).type_,
            final(self).req == old(self).req,
            r is Err ==> final(self).resp == old(self).resp,
            r is Ok ==> final(self).resp is Some && response_headers(final(self).resp->0)
                == response_headers(old(self).resp->0).insert(ascii_lower(key@), seq![value@]),
    {
        let mut slot: Option<Response> = None;
        std::mem::swap(&mut slot, &mut self.resp);
        match slot {
            Some(mut resp) => {
                response_insert_header(&mut resp, key, value);
                self.resp = Some(resp);
                Ok(())
            },
            None => Err(owned("Response not set yet")),
        }
    }

    /// The request's content type, written out. A content-type header
    /// with no value makes `Request::content_type` panic, so `requires`
    /// leaves that case out.
    pub fn get_content_type(&self) -> (r: Option<String>)
        requires
            request_headers(self.req).contains_key(content_type_header()) ==> request_headers(
                self.req,
            )[content_type_header()].len() > 0,
        ensures
            r matches Some(s) ==> content_type_text(request_headers(self.req)) == Some(s@),
            r is None ==> content_type_text(request_headers(self.req)) is None,
    {
        request_content_type(&self.req)
    }
}

} // verus!
