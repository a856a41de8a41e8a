//! The HTTP request and response of `http_types`, seen through the
//! headers they hold.
use vstd::prelude::*;
use crate::text::{all_ascii, ascii_lower, string_views};
use http_types::{Method, Request, Response};

verus! {

#[verifier::external_type_specification]
#[verifier::external_body]
pub struct ExRequest(http_types::Request);

#[verifier::external_type_specification]
#[verifier::external_body]
pub struct ExResponse(http_types::Response);

#[verifier::external_type_specification]
#[verifier::external_body]
pub struct ExMethod(http_types::Method);

/// The headers a request holds: each header name, lower-cased, with its
/// values in order.
pub uninterp spec fn request_headers(r: http_types::Request) -> Map<Seq<char>, Seq<Seq<char>>>;

/// The headers a response holds: each header name, lower-cased, with its
/// values in order.
pub uninterp spec fn response_headers(r: http_types::Response) -> Map<Seq<char>, Seq<Seq<char>>>;

/// The text that `Display` for `HeaderValues` writes for these values.
pub uninterp spec fn header_values_text(values: Seq<Seq<char>>) -> Seq<char>;

/// The content type (the parsed MIME written out again) of a request
/// with these headers.
pub uninterp spec fn content_type_text(headers: Map<Seq<char>, Seq<Seq<char>>>) -> Option<
    Seq<char>,
>;

/// The method a request holds.
pub uninterp spec fn method_of(r: http_types::Request) -> http_types::Method;

/// The text of the URL a request holds, as `Url::as_str` gives it.
pub uninterp spec fn url_of(r: http_types::Request) -> Seq<char>;

/// The status code a response holds, as its number.
pub uninterp spec fn status_of(r: http_types::Response) -> u16;

/// Every header the map holds has at least one value.
pub open spec fn values_nonempty(h: Map<Seq<char>, Seq<Seq<char>>>) -> bool {
    forall|k: Seq<char>| #[trigger] h.contains_key(k) ==> h[k].len() > 0
}

/// Every value in the list is ASCII text.
pub open spec fn values_ascii(values: Seq<Seq<char>>) -> bool {
    forall|i: int| 0 <= i < values.len() ==> all_ascii(#[trigger] values[i])
}

/// Every value of every header the map holds is ASCII text.
pub open spec fn headers_ascii(h: Map<Seq<char>, Seq<Seq<char>>>) -> bool {
    forall|k: Seq<char>| #[trigger] h.contains_key(k) ==> values_ascii(h[k])
}

/// No headers at all.
pub open spec fn empty_headers() -> Map<Seq<char>, Seq<Seq<char>>> {
    Map::empty()
}

/// A `GET` request for `http://localhost`, by `Url::parse` and
/// `Request::new`; a new request holds no headers.
#[verifier::external_body]
pub(crate) fn new_localhost_request() -> (r: Request)
    ensures
        request_headers(r) == empty_headers(),
{
    let url = http_types::Url::parse("http://localhost").unwrap();
    http_types::Request::new(http_types::Method::Get, url)
}

/// The values of header `name`, by `Request::header`. The name is turned
/// into a `HeaderName`, which lower-cases it and panics on non-ASCII
/// text. A header that is present may hold no value at all: the crate
/// accepts an empty list of values on insertion.
#[verifier::external_body]
pub(crate) fn request_header_values(r: &http_types::Request, name: &str) -> (v: Option<Vec<String>>)
    requires
        all_ascii(name@),
    ensures
        v is Some <==> request_headers(*r).contains_key(ascii_lower(name@)),
        v matches Some(x) ==> string_views(x@) == request_headers(*r)[ascii_lower(name@)],
{
    match r.header(name) {
        Some(vs) => {
            let mut out = Vec::new();
            for v in vs.iter() {
                out.push(v.as_str().to_string());
            }
            Some(out)
        },
        None => None,
    }
}

/// The text that `Display` writes for the values of header `name` of a
/// request. It renders each value with `Debug`, which keeps ASCII text
/// ASCII (it escapes control characters with ASCII sequences), so the text
/// is ASCII when the values are. A value may hold other characters (a
/// `HeaderValue` made from a `Mime` can), and `Debug` prints printable ones
/// as they are; of such values nothing is said beyond the name.
#[verifier::external_body]
pub(crate) fn request_header_text(r: &http_types::Request, name: &str) -> (v: Option<String>)
    requires
        all_ascii(name@),
    ensures
        v is Some <==> request_headers(*r).contains_key(ascii_lower(name@)),
        v matches Some(s) ==> s@ == header_values_text(request_headers(*r)[ascii_lower(name@)])
            && (values_ascii(request_headers(*r)[ascii_lower(name@)]) ==> all_ascii(s@)),
{
    r.header(name).map(|vs| format!("{}", vs))
}

/// Sets header `name` of a request to the single value `value`, by
/// `Request::insert_header`, which replaces any values it had. Both texts
/// must be ASCII, or the conversion panics.
#[verifier::external_body]
pub(crate) fn request_insert_header(r: &mut http_types::Request, name: &str, value: &str)
    requires
        all_ascii(name@),
        all_ascii(value@),
    ensures
        request_headers(*final(r)) == request_headers(*old(r)).insert(
            ascii_lower(name@),
            seq![value@],
        ),
{
    r.insert_header(name, value);
}

/// Adds `value` after the values of header `name` of a request, or sets
/// the header to it when absent, by `Request::append_header`.
#[verifier::external_body]
pub(crate) fn request_append_header(r: &mut http_types::Request, name: &str, value: &str)
    requires
        all_ascii(name@),
        all_ascii(value@),
    ensures
        request_headers(*final(r)) == (if request_headers(*old(r)).contains_key(
            ascii_lower(name@),
        ) {
            request_headers(*old(r)).insert(
                ascii_lower(name@),
                request_headers(*old(r))[ascii_lower(name@)].push(value@),
            )
        } else {
            request_headers(*old(r)).insert(ascii_lower(name@), seq![value@])
        }),
{
    r.append_header(name, value);
}

/// The values of header `name` of a response, by `Response::header`.
#[verifier::external_body]
pub(crate) fn response_header_values(r: &http_types::Response, name: &str) -> (v: Option<Vec<String>>)
    requires
        all_ascii(name@),
    ensures
        v is Some <==> response_headers(*r).contains_key(ascii_lower(name@)),
        v matches Some(x) ==> string_views(x@) == response_headers(*r)[ascii_lower(name@)],
{
    match r.header(name) {
        Some(vs) => {
            let mut out = Vec::new();
            for v in vs.iter() {
                out.push(v.as_str().to_string());
            }
            Some(out)
        },
        None => None,
    }
}

/// Sets header `name` of a response to the single value `value`, by
/// `Response::insert_header`.
#[verifier::external_body]
pub(crate) fn response_insert_header(r: &mut http_types::Response, name: &str, value: &str)
    requires
        all_ascii(name@),
        all_ascii(value@),
    ensures
        response_headers(*final(r)) == response_headers(*old(r)).insert(
            ascii_lower(name@),
            seq![value@],
        ),
{
    r.insert_header(name, value);
}

/// A new request with the method and URL of `r` and no headers, by
/// `Request::new`, which stores the method and the URL it is given (a
/// `Url` converts into itself).
#[verifier::external_body]
pub(crate) fn request_fork(r: &http_types::Request) -> (n: Request)
    ensures
        request_headers(n) == empty_headers(),
        method_of(n) == method_of(*r),
        url_of(n) == url_of(*r),
{
    http_types::Request::new(r.method(), r.url().clone())
}

/// A new response with the status of `r` and no headers, by
/// `Response::new`, which stores the status it is given (a `StatusCode`
/// converts into itself).
#[verifier::external_body]
pub(crate) fn response_fork(r: &http_types::Response) -> (n: Response)
    ensures
        response_headers(n) == empty_headers(),
        status_of(n) == status_of(*r),
{
    http_types::Response::new(r.status())
}

/// The method of a request, by `Request::method`, which copies the
/// method the request holds.
#[verifier::external_body]
pub(crate) fn request_method(r: &http_types::Request) -> (m: http_types::Method)
    ensures
        m == method_of(*r),
{
    r.method()
}

/// Sets the method of a request, by `Request::set_method`, which stores
/// the method and leaves the headers alone.
#[verifier::external_body]
pub(crate) fn request_set_method(r: &mut http_types::Request, m: http_types::Method)
    ensures
        request_headers(*final(r)) == request_headers(*old(r)),
        method_of(*final(r)) == m,
{
    r.set_method(m);
}

/// Whether two methods are the same, by the derived `PartialEq` of the
/// field-less `Method` enum.
#[verifier::external_body]
pub(crate) fn method_eq(a: &http_types::Method, b: &http_types::Method) -> (r: bool)
    ensures
        r == (*a == *b),
{
    *a == *b
}

/// The name of the content-type header.
pub open spec fn content_type_header() -> Seq<char> {
    "content-type"@
}

/// The content type of a request written out, by `Request::content_type`
/// and `Mime`'s `to_string`; it depends on the headers alone. It reads the
/// last value of the content-type header, and panics when that header is
/// there with no value.
#[verifier::external_body]
pub(crate) fn request_content_type(r: &http_types::Request) -> (t: Option<String>)
    requires
        request_headers(*r).contains_key(content_type_header()) ==> request_headers(
            *r,
        )[content_type_header()].len() > 0,
    ensures
        t matches Some(s) ==> content_type_text(request_headers(*r)) == Some(s@),
        t is None ==> content_type_text(request_headers(*r)) is None,
{
    r.content_type().map(|c| c.to_string())
}

} // verus!
