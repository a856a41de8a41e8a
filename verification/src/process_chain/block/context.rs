//! The context commands run in: the request, the response once there is
//! one, and the store of host labels.
use vstd::prelude::*;
use http_types::{Request, Response};
use crate::process_chain::block::storage::{HostStorageRef, join, joins_set, new_memory_host_storage};
use crate::process_chain::http::{
    empty_headers, header_values_text, headers_ascii, values_ascii, values_nonempty,
    new_localhost_request, request_header_text, request_header_values, request_headers, request_insert_header, response_header_values,
    response_headers, response_insert_header,
};
use crate::text::{
    all_ascii, ascii_lower, ascii_lower_char, chars_eq, chars_of, is_sep,
    lemma_split_sep_then_plain, lemma_split_without_sep, owned, split_all, split_chars,
    string_of_all, string_views, views, Sep,
};
use vstd::string::{StrSliceExecFns, StringExecFns};

verus! {

/// The headers of a request or a response: each lower-cased name with its
/// values in order.
pub type HeaderMap = Map<Seq<char>, Seq<Seq<char>>>;

/// The first value of header `name`, if the headers hold it.
pub open spec fn header_first(h: HeaderMap, name: Seq<char>) -> Option<Seq<char>> {
    if h.contains_key(ascii_lower(name)) {
        Some(h[ascii_lower(name)][0])
    } else {
        None
    }
}

/// The parts of a key, split at its dots.
pub open spec fn key_parts(key: Seq<char>) -> Seq<Seq<char>> {
    split_all(key, Sep::Dot)
}

/// Whether a key reaches into the request headers (`REQ_HEADER.name`).
pub open spec fn is_req_key(key: Seq<char>) -> bool {
    key_parts(key)[0] == "REQ_HEADER"@ && key_parts(key).len() >= 2
}

/// Whether a key reaches into the response headers (`RESP_HEADER.name`).
pub open spec fn is_resp_key(key: Seq<char>) -> bool {
    key_parts(key)[0] == "RESP_HEADER"@ && key_parts(key).len() >= 2
}

/// The header name a key reaches.
pub open spec fn key_header(key: Seq<char>) -> Seq<char> {
    key_parts(key)[1]
}

/// The value a key reads: the first value of the header it names.
pub open spec fn value_of(req: HeaderMap, resp: Option<HeaderMap>, key: Seq<char>) -> Option<
    Seq<char>,
> {
    if is_req_key(key) {
        header_first(req, key_header(key))
    } else if is_resp_key(key) {
        match resp {
            Some(h) => header_first(h, key_header(key)),
            None => None,
        }
    } else {
        None
    }
}

/// Whether reading or writing `key` turns its header name into a
/// `HeaderName`, which must be ASCII.
pub open spec fn key_touches_header(has_resp: bool, key: Seq<char>) -> bool {
    is_req_key(key) || (is_resp_key(key) && has_resp)
}

/// Why writing `key` is refused, if it is.
pub open spec fn set_value_error(has_resp: bool, key: Seq<char>) -> Option<Seq<char>> {
    if key_parts(key)[0] == "REQ_HEADER"@ {
        if key_parts(key).len() < 2 {
            Some("Invalid key: "@ + key)
        } else {
            None
        }
    } else if key_parts(key)[0] == "RESP_HEADER"@ {
        if key_parts(key).len() < 2 {
            Some("Invalid key: "@ + key)
        } else if !has_resp {
            Some("Response not set yet"@)
        } else {
            None
        }
    } else {
        Some("Unknown key: "@ + key)
    }
}

/// The header labels are kept in.
pub open spec fn label_header() -> Seq<char> {
    "label"@
}

/// The label header after `label` is appended to it.
pub open spec fn appended_label(req: HeaderMap, label: Seq<char>) -> Seq<char> {
    if req.contains_key(label_header()) {
        header_values_text(req[label_header()]) + seq![','] + label
    } else {
        label
    }
}

/// Lemma: the label header's name is ASCII and already lower-case.
pub proof fn lemma_label_header()
    ensures
        ascii_lower(label_header()) == label_header(),
        all_ascii(label_header()),
{
    reveal_strlit("label");
    assert(ascii_lower(label_header()) =~= label_header()) by {
        assert forall|i: int| 0 <= i < label_header().len() implies ascii_lower(label_header())[i]
            == label_header()[i] by {
            assert(ascii_lower_char(label_header()[i]) == label_header()[i]);
        }
    }
}

/// Lemma: pieces that are all ASCII join into ASCII text.
pub proof fn lemma_join_ascii(q: Seq<Seq<char>>, sep: char)
    requires
        (sep as u32) < 128,
        forall|i: int| 0 <= i < q.len() ==> all_ascii(#[trigger] q[i]),
    ensures
        all_ascii(join(q, sep)),
    decreases q.len(),
{
    if q.len() > 1 {
        lemma_join_ascii(q.drop_last(), sep);
        let a = join(q.drop_last(), sep).push(sep);
        assert(all_ascii(q.last()));
        assert forall|i: int| 0 <= i < join(q, sep).len() implies (join(q, sep)[i] as u32)
            < 128 by {
            if i < a.len() {
                assert(join(q, sep)[i] == a[i]);
            } else {
                assert(join(q, sep)[i] == q.last()[i - a.len()]);
            }
        }
    } else if q.len() == 1 {
        assert(all_ascii(q[0]));
    }
}

/// Lemma: the key `REQ_HEADER.label` reaches the request's label header.
pub proof fn lemma_req_label_key()
    ensures
        is_req_key("REQ_HEADER.label"@),
        key_header("REQ_HEADER.label"@) == label_header(),
        ascii_lower(key_header("REQ_HEADER.label"@)) == label_header(),
{
    reveal_strlit("REQ_HEADER.label");
    reveal_strlit("REQ_HEADER");
    reveal_strlit("label");
    let a = "REQ_HEADER"@;
    let b = "label"@;
    assert("REQ_HEADER.label"@ =~= a.push('.') + b);
    assert forall|j: int| 0 <= j < a.len() implies !is_sep(Sep::Dot, #[trigger] a[j]) by {}
    assert forall|j: int| 0 <= j < b.len() implies !is_sep(Sep::Dot, #[trigger] b[j]) by {}
    lemma_split_without_sep(a, Sep::Dot);
    lemma_split_sep_then_plain(a, '.', b, Sep::Dot);
    assert(key_parts("REQ_HEADER.label"@) =~= seq![a, b]);
    lemma_label_header();
}

/// Law: reading `REQ_HEADER.name` gives the first value of that request
/// header (its name taken in lower case), and nothing when the request
/// lacks it; `RESP_HEADER.name` reads the response the same way, and
/// nothing while there is no response; any other key reads nothing.
pub proof fn law_value_is_first(req: HeaderMap, resp: Option<HeaderMap>, key: Seq<char>)
    ensures
        is_req_key(key) && req.contains_key(ascii_lower(key_header(key))) ==> value_of(
            req,
            resp,
            key,
        ) == Some(req[ascii_lower(key_header(key))][0]),
        is_req_key(key) && !req.contains_key(ascii_lower(key_header(key))) ==> value_of(
            req,
            resp,
            key,
        ) is None,
        is_resp_key(key) ==> (match resp {
            Some(h) => if h.contains_key(ascii_lower(key_header(key))) {
                value_of(req, resp, key) == Some(h[ascii_lower(key_header(key))][0])
            } else {
                value_of(req, resp, key) is None
            },
            None => value_of(req, resp, key) is None,
        }),
        !is_req_key(key) && !is_resp_key(key) ==> value_of(req, resp, key) is None,
{
    reveal_strlit("REQ_HEADER");
    reveal_strlit("RESP_HEADER");
    assert("REQ_HEADER"@.len() != "RESP_HEADER"@.len());
}

/// Law: after `REQ_HEADER.name` is written, reading it gives the value
/// written, whatever the response holds.
pub proof fn law_req_value_after_set(
    req: HeaderMap,
    resp: Option<HeaderMap>,
    key: Seq<char>,
    value: Seq<char>,
)
    requires
        is_req_key(key),
    ensures
        value_of(req.insert(ascii_lower(key_header(key)), seq![value]), resp, key) == Some(value),
{
}

/// Law: after `RESP_HEADER.name` is written to a response, reading it
/// gives the value written.
pub proof fn law_resp_value_after_set(
    req: HeaderMap,
    resp: HeaderMap,
    key: Seq<char>,
    value: Seq<char>,
)
    requires
        is_resp_key(key),
    ensures
        value_of(req, Some(resp.insert(ascii_lower(key_header(key)), seq![value])), key) == Some(
            value,
        ),
{
    reveal_strlit("REQ_HEADER");
    reveal_strlit("RESP_HEADER");
    assert("REQ_HEADER"@.len() != "RESP_HEADER"@.len());
    assert(key_parts(key)[0] != "REQ_HEADER"@);
}

/// Law: after the label is set to `label`, the label is set.
pub proof fn law_label_set_after_set(req: HeaderMap, label: Seq<char>)
    ensures
        ({
            let after = req.insert(label_header(), seq![label]);
            after.contains_key(label_header()) && after[label_header()].contains(label)
        }),
{
    let after = req.insert(label_header(), seq![label]);
    assert(after[label_header()][0] == label);
}

/// Lemma: setting a header to a single ASCII value keeps every header
/// non-empty and every value ASCII.
pub proof fn lemma_insert_single_value(h: HeaderMap, k: Seq<char>, v: Seq<char>)
    requires
        values_nonempty(h),
        headers_ascii(h),
        all_ascii(v),
    ensures
        values_nonempty(h.insert(k, seq![v])),
        headers_ascii(h.insert(k, seq![v])),
{
    let after = h.insert(k, seq![v]);
    assert forall|x: Seq<char>| #[trigger] after.contains_key(x) implies after[x].len() > 0 by {
        if x != k {
            assert(h.contains_key(x));
        }
    }
    assert forall|x: Seq<char>| #[trigger] after.contains_key(x) implies values_ascii(after[x]) by {
        if x != k {
            assert(h.contains_key(x));
        } else {
            assert forall|i: int| 0 <= i < after[x].len() implies all_ascii(
                #[trigger] after[x][i],
            ) by {
                assert(after[x][i] == v);
            }
        }
    }
}

/// The context commands run in.
pub struct Context {
    req: Request,
    resp: Option<Response>,
    hosts: HostStorageRef,
}

impl Context {
    /// Every header of the request, and of the response once there is one,
    /// holds at least one value, and every value is ASCII text: the context
    /// only ever writes single ASCII values.
    #[verifier::type_invariant]
    closed spec fn wf(&self) -> bool {
        &&& values_nonempty(request_headers(self.req))
        &&& headers_ascii(request_headers(self.req))
        &&& self.resp matches Some(r) ==> values_nonempty(response_headers(r)) && headers_ascii(
            response_headers(r),
        )
    }

    /// The headers of the request.
    pub closed spec fn req_headers(&self) -> HeaderMap {
        request_headers(self.req)
    }

    /// The headers of the response, once there is one.
    pub closed spec fn resp_headers(&self) -> Option<HeaderMap> {
        match self.resp {
            Some(r) => Some(response_headers(r)),
            None => None,
        }
    }

    /// The hosts of the host store with their labels.
    pub closed spec fn host_map(&self) -> Map<Seq<char>, Set<Seq<char>>> {
        self.hosts.host_map()
    }

    /// Sets request header `name` to `value` alone.
    fn put_req_header(&mut self, name: &str, value: &str)
        requires
            all_ascii(name@),
            all_ascii(value@),
        ensures
            final(self).req_headers() == old(self).req_headers().insert(
                ascii_lower(name@),
                seq![value@],
            ),
            final(self).resp_headers() == old(self).resp_headers(),
            final(self).host_map() == old(self).host_map(),
    {
        proof {
            use_type_invariant(&*self);
        }
        let mut req = new_localhost_request();
        std::mem::swap(&mut req, &mut self.req);
        request_insert_header(&mut req, name, value);
        proof {
            lemma_insert_single_value(old(self).req_headers(), ascii_lower(name@), value@);
        }
        std::mem::swap(&mut req, &mut self.req);
    }

    /// A context for a `GET` of `http://localhost` with no headers, no
    /// response yet and an empty host store.
    pub fn new() -> (r: Self)
        ensures
            r.req_headers() == empty_headers(),
            r.resp_headers() is None,
            r.host_map() == Map::<Seq<char>, Set<Seq<char>>>::empty(),
    {
        let hosts = new_memory_host_storage();
        Self { req: new_localhost_request(), resp: None, hosts }
    }

    /// Reads `REQ_HEADER.name` or `RESP_HEADER.name`: the first value of
    /// that header. Any other key, a missing header, or a response not
    /// there yet gives `None`.
    pub fn get_value(&self, key: &str) -> (r: Option<String>)
        requires
            key_touches_header(self.resp_headers() is Some, key@) ==> all_ascii(key_header(key@)),
        ensures
            r matches Some(s) ==> value_of(self.req_headers(), self.resp_headers(), key@) == Some(
                s@,
            ),
            r is None ==> value_of(self.req_headers(), self.resp_headers(), key@) is None,
    {
        proof {
            use_type_invariant(self);
        }
        let kv = chars_of(key);
        let parts = split_chars(&kv, Sep::Dot);
        assert(views(parts@).len() == parts@.len());
        assert(parts@.len() >= 1);
        assert(views(parts@)[0] == parts@[0]@);
        let req_word = chars_of("REQ_HEADER");
        let resp_word = chars_of("RESP_HEADER");
        if chars_eq(&parts[0], &req_word) {
            if parts.len() < 2 {
                return None;
            }
            assert(views(parts@)[1] == parts@[1]@);
            let name = string_of_all(&parts[1]);
            match request_header_values(&self.req, name.as_str()) {
                Some(vs) => {
                    assert(string_views(vs@)[0] == vs@[0]@);
                    Some(owned(vs[0].as_str()))
                },
                None => None,
            }
        } else if chars_eq(&parts[0], &resp_word) {
            if parts.len() < 2 {
                return None;
            }
            assert(views(parts@)[1] == parts@[1]@);
            let name = string_of_all(&parts[1]);
            match &self.resp {
                Some(resp) => {
                    match response_header_values(resp, name.as_str()) {
                        Some(vs) => {
                            assert(string_views(vs@)[0] == vs@[0]@);
                            Some(owned(vs[0].as_str()))
                        },
                        None => None,
                    }
                },
                None => None,
            }
        } else {
            None
        }
    }

    /// Writes `REQ_HEADER.name` or `RESP_HEADER.name`: that header then
    /// holds `value` alone. Any other key, a key without a name, or a
    /// response not there yet is refused, and nothing changes.
    pub fn set_value(&mut self, key: &str, value: &str) -> (r: Result<(), String>)
        requires
            key_touches_header(old(self).resp_headers() is Some, key@) ==> all_ascii(
                key_header(key@),
            ) && all_ascii(value@),
        ensures
            r is Err <==> set_value_error(old(self).resp_headers() is Some, key@) is Some,
            r matches Err(m) ==> set_value_error(old(self).resp_headers() is Some, key@) == Some(
                m@,
            ),
            final(self).host_map() == old(self).host_map(),
            r is Err ==> final(self).req_headers() == old(self).req_headers()
                && final(self).resp_headers() == old(self).resp_headers(),
            r is Ok && is_req_key(key@) ==> final(self).req_headers() == old(
                self,
            ).req_headers().insert(ascii_lower(key_header(key@)), seq![value@])
                && final(self).resp_headers() == old(self).resp_headers(),
            r is Ok && is_resp_key(key@) ==> final(self).req_headers() == old(self).req_headers()
                && final(self).resp_headers() == Some(
                old(self).resp_headers()->0.insert(ascii_lower(key_header(key@)), seq![value@]),
            ),
    {
        proof {
            use_type_invariant(&*self);
        }
        let kv = chars_of(key);
        let parts = split_chars(&kv, Sep::Dot);
        assert(views(parts@).len() == parts@.len());
        assert(parts@.len() >= 1);
        assert(views(parts@)[0] == parts@[0]@);
        let req_word = chars_of("REQ_HEADER");
        let resp_word = chars_of("RESP_HEADER");
        proof {
            reveal_strlit("REQ_HEADER");
            reveal_strlit("RESP_HEADER");
        }
        if chars_eq(&parts[0], &req_word) {
            if parts.len() < 2 {
                let mut msg = owned("Invalid key: ");
                msg.append(key);
                return Err(msg);
            }
            assert(views(parts@)[1] == parts@[1]@);
            let name = string_of_all(&parts[1]);
            self.put_req_header( name.as_str(), value);
            Ok(())
        } else if chars_eq(&parts[0], &resp_word) {
            if parts.len() < 2 {
                let mut msg = owned("Invalid key: ");
                msg.append(key);
                return Err(msg);
            }
            assert(views(parts@)[1] == parts@[1]@);
            let name = string_of_all(&parts[1]);
            let mut slot: Option<Response> = None;
            std::mem::swap(&mut slot, &mut self.resp);
            match slot {
                Some(mut resp) => {
                    response_insert_header(&mut resp, name.as_str(), value);
                    proof {
                        lemma_insert_single_value(
                            response_headers(old(self).resp->0),
                            ascii_lower(key_header(key@)),
                            value@,
                        );
                    }
                    self.resp = Some(resp);
                    Ok(())
                },
                None => Err(owned("Response not set yet")),
            }
        } else {
            let mut msg = owned("Unknown key: ");
            msg.append(key);
            Err(msg)
        }
    }

    /// Appends `label` to the label header, after a comma, or sets the
    /// header to it when absent. The existing values are written as
    /// `HeaderValues` displays them. An empty label changes nothing.
    pub fn append_label(&mut self, label: &str)
        requires
            label@.len() > 0 ==> all_ascii(label@),
        ensures
            final(self).host_map() == old(self).host_map(),
            final(self).resp_headers() == old(self).resp_headers(),
            label@.len() == 0 ==> final(self).req_headers() == old(self).req_headers(),
            label@.len() > 0 ==> final(self).req_headers() == old(self).req_headers().insert(
                label_header(),
                seq![appended_label(old(self).req_headers(), label@)],
            ),
    {
        if label.unicode_len() == 0 {
            return;
        }
        proof {
            lemma_label_header();
        }
        proof {
            use_type_invariant(&*self);
            if self.req_headers().contains_key(label_header()) {
                assert(values_ascii(self.req_headers()[label_header()]));
            }
        }
        match request_header_text(&self.req, "label") {
            None => {
                self.put_req_header( "label", label);
            },
            Some(text) => {
                let mut v = text;
                let ghost t = v@;
                proof {
                    reveal_strlit(",");
                }
                v.append(",");
                v.append(label);
                assert(v@ =~= t + seq![','] + label@);
                assert(all_ascii(v@)) by {
                    assert forall|i: int| 0 <= i < v@.len() implies (v@[i] as u32) < 128 by {
                        if i < t.len() {
                            assert(v@[i] == t[i]);
                        } else if i > t.len() {
                            assert(v@[i] == label@[i - t.len() - 1]);
                        }
                    }
                }
                self.put_req_header( "label", v.as_str());
            },
        }
    }

    /// Sets the label header to `label` alone. An empty label changes
    /// nothing.
    pub fn set_label(&mut self, label: &str)
        requires
            label@.len() > 0 ==> all_ascii(label@),
        ensures
            final(self).host_map() == old(self).host_map(),
            final(self).resp_headers() == old(self).resp_headers(),
            label@.len() == 0 ==> final(self).req_headers() == old(self).req_headers(),
            label@.len() > 0 ==> final(self).req_headers() == old(self).req_headers().insert(
                label_header(),
                seq![label@],
            ),
    {
        if label.unicode_len() == 0 {
            return;
        }
        proof {
            lemma_label_header();
        }
        self.put_req_header( "label", label);
    }

    /// Sets the label header to the labels the host store holds for
    /// `host`, joined with commas in the store's order. A host the store
    /// does not hold changes nothing.
    pub fn set_label_from_host_db(&mut self, host: &str)
        requires
            old(self).host_map().contains_key(host@) ==> forall|l: Seq<char>|
                #[trigger] old(self).host_map()[host@].contains(l) ==> all_ascii(l),
        ensures
            final(self).host_map() == old(self).host_map(),
            final(self).resp_headers() == old(self).resp_headers(),
            !old(self).host_map().contains_key(host@) ==> final(self).req_headers() == old(
                self,
            ).req_headers(),
            old(self).host_map().contains_key(host@) ==> exists|s: Seq<char>|
                joins_set(s, old(self).host_map()[host@]) && final(self).req_headers() == old(
                    self,
                ).req_headers().insert(label_header(), seq![s]),
    {
        let labels = self.hosts.get_labels(host);
        match labels {
            None => {},
            Some(s) => {
                proof {
                    lemma_label_header();
                    let q = choose|q: Seq<Seq<char>>|
                        #![trigger q.to_set()]
                        q.to_set() == self.host_map()[host@] && q.no_duplicates() && join(q, ',')
                            == s@;
                    assert forall|i: int| 0 <= i < q.len() implies all_ascii(#[trigger] q[i]) by {
                        assert(q.to_set().contains(q[i]));
                    }
                    lemma_join_ascii(q, ',');
                }
                self.put_req_header( "label", s.as_str());
                assert(joins_set(s@, old(self).host_map()[host@]));
            },
        }
    }

    /// Whether the label header holds `label` as one of its values.
    pub fn is_label_set(&self, label: &str) -> (r: bool)
        requires
            self.req_headers().contains_key(label_header()) ==> all_ascii(label@),
        ensures
            r == (self.req_headers().contains_key(label_header())
                && self.req_headers()[label_header()].contains(label@)),
    {
        proof {
            lemma_label_header();
        }
        match request_header_values(&self.req, "label") {
            None => false,
            Some(vs) => {
                assert(string_views(vs@) == self.req_headers()[label_header()]);
                let lv = chars_of(label);
                let mut i: usize = 0;
                while i < vs.len()
                    invariant
                        i <= vs.len(),
                        lv@ == label@,
                        self.req_headers().contains_key(label_header()),
                        string_views(vs@) == self.req_headers()[label_header()],
                        forall|j: int| 0 <= j < i ==> vs@[j]@ != label@,
                    decreases vs.len() - i,
                {
                    let c = chars_of(vs[i].as_str());
                    assert(c@ == vs@[i as int]@);
                    if chars_eq(&c, &lv) {
                        assert(string_views(vs@)[i as int] == label@);
                        assert(self.req_headers()[label_header()][i as int] == label@);
                        return true;
                    }
                    i = i + 1;
                }
                assert forall|j: int| 0 <= j < string_views(vs@).len() implies string_views(
                    vs@,
                )[j] != label@ by {}
                false
            },
        }
    }
}

} // verus!
