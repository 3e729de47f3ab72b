use vstd::prelude::*;
use vstd::string::StrSliceExecFns;
use vstd::utf8::encode_utf8;

use crate::codec::{decode_query, decode_text, lemma_missing_dest, seg_names_dest};
use crate::query::split_amp;
use crate::directive::{uri_normalized, DirectiveView, RevProxyRequest, UriWrapper};
use crate::encoding::{is_visible_ascii, visible_ascii};
use crate::headers::{append_error, headers_view, sanitize_headers, sanitized};
use crate::response::{opt_bytes, ProxyResponse};
use crate::text::{ascii_string, chars_of, push_char};

verus! {

/// Why a request could not be served.
#[derive(Debug, Clone, Copy, PartialEq, Eq, Structural)]
pub enum RevProxyServerError {
    /// The request has no `Host` header.
    NoHostField,
    /// The request carries no query string.
    NoQuery,
    /// The query string is not a directive.
    MalformedDirective,
    /// A header name to append is not a valid header name.
    InvalidHeaderName,
    /// A header value is not valid where it is used.
    InvalidHeaderValue,
    /// The regex engine failed while applying a rewrite rule.
    RewriteEngineError,
    /// The upstream request failed.
    UpstreamError,
    /// The outbound response could not be built.
    ReassemblyError,
}

/// The status code of the response that reports `e`: 422 for what is wrong
/// with the request itself, 502 when upstream failed, 500 otherwise.
pub open spec fn error_status(e: RevProxyServerError) -> u16 {
    match e {
        RevProxyServerError::UpstreamError => 502,
        RevProxyServerError::RewriteEngineError => 500,
        RevProxyServerError::ReassemblyError => 500,
        _ => 422,
    }
}

pub open spec fn error_message(e: RevProxyServerError) -> Seq<char> {
    match e {
        RevProxyServerError::NoHostField => "No Host field in request"@,
        RevProxyServerError::NoQuery => "No query"@,
        RevProxyServerError::MalformedDirective => "Malformed directive in query"@,
        RevProxyServerError::InvalidHeaderName => "Invalid header name"@,
        RevProxyServerError::InvalidHeaderValue => "Invalid header value"@,
        RevProxyServerError::RewriteEngineError => "Rewrite rule failed"@,
        RevProxyServerError::UpstreamError => "Upstream request failed"@,
        RevProxyServerError::ReassemblyError => "Failed building response"@,
    }
}

impl RevProxyServerError {
    /// What went wrong, in words (what `Display` would write).
    pub fn message(&self) -> (r: String)
        ensures
            r@ == error_message(*self),
    {
        match self {
            RevProxyServerError::NoHostField => String::from_str("No Host field in request"),
            RevProxyServerError::NoQuery => String::from_str("No query"),
            RevProxyServerError::MalformedDirective => String::from_str(
                "Malformed directive in query",
            ),
            RevProxyServerError::InvalidHeaderName => String::from_str("Invalid header name"),
            RevProxyServerError::InvalidHeaderValue => String::from_str("Invalid header value"),
            RevProxyServerError::RewriteEngineError => String::from_str("Rewrite rule failed"),
            RevProxyServerError::UpstreamError => String::from_str("Upstream request failed"),
            RevProxyServerError::ReassemblyError => String::from_str("Failed building response"),
        }
    }

    /// The status code that reports this error.
    pub fn status(&self) -> (r: u16)
        ensures
            r == error_status(*self),
    {
        match self {
            RevProxyServerError::UpstreamError => 502,
            RevProxyServerError::RewriteEngineError => 500,
            RevProxyServerError::ReassemblyError => 500,
            _ => 422,
        }
    }
}


/// `:443`
pub open spec fn port_https() -> Seq<char> {
    seq![':', '4', '4', '3']
}

/// `:80`
pub open spec fn port_http() -> Seq<char> {
    seq![':', '8', '0']
}

pub open spec fn ends_with(s: Seq<char>, t: Seq<char>) -> bool {
    t.len() <= s.len() && s.skip(s.len() - t.len()) == t
}

/// `a` without a trailing `:443` or `:80`.
pub open spec fn strip_default_port(a: Seq<char>) -> Seq<char> {
    if ends_with(a, port_https()) {
        a.take(a.len() - 4)
    } else if ends_with(a, port_http()) {
        a.take(a.len() - 3)
    } else {
        a
    }
}

fn ends_with_exec(s: &Vec<char>, t: &Vec<char>) -> (r: bool)
    ensures
        r == ends_with(s@, t@),
{
    if t.len() > s.len() {
        return false;
    }
    let off = s.len() - t.len();
    let mut i: usize = 0;
    while i < t.len()
        invariant
            off + t.len() == s.len(),
            i <= t@.len(),
            forall|j: int| 0 <= j < i ==> s@[off + j] == t@[j],
        decreases t@.len() - i,
    {
        if s[off + i] != t[i] {
            assert(s@.skip(off as int)[i as int] != t@[i as int]);
            return false;
        }
        i = i + 1;
    }
    assert(s@.skip(off as int) =~= t@);
    true
}

/// Removes a trailing `:443` or `:80` from an authority.
pub fn sanitize_authority(auth: &str) -> (r: String)
    ensures
        r@ == strip_default_port(auth@),
{
    let a = chars_of(auth);
    let https = vec![':', '4', '4', '3'];
    let http = vec![':', '8', '0'];
    assert(https@ =~= port_https());
    assert(http@ =~= port_http());
    let keep = if ends_with_exec(&a, &https) {
        a.len() - 4
    } else if ends_with_exec(&a, &http) {
        a.len() - 3
    } else {
        a.len()
    };
    let mut out = String::new();
    let mut i: usize = 0;
    while i < keep
        invariant
            keep <= a@.len(),
            i <= keep,
            out@ == a@.take(i as int),
        decreases keep - i,
    {
        push_char(&mut out, a[i]);
        assert(a@.take(i + 1) =~= a@.take(i as int).push(a@[i as int]));
        i = i + 1;
    }
    assert(a@.take(a@.len() as int) =~= a@);
    out
}

/// The caller authority named by a `Host` header value.
pub open spec fn local_addr_of(host: Option<Seq<u8>>) -> Result<Seq<char>, RevProxyServerError> {
    match host {
        None => Err(RevProxyServerError::NoHostField),
        Some(b) => if visible_ascii(b) {
            Ok(strip_default_port(b.map_values(|x: u8| x as char)))
        } else {
            Err(RevProxyServerError::InvalidHeaderValue)
        },
    }
}

/// The directive that a query string stands for: `NoQuery` when there is
/// none or it is empty, `MalformedDirective` when it is not a directive.
pub open spec fn query_result(query: Option<Seq<char>>) -> Result<DirectiveView, RevProxyServerError> {
    match query {
        None => Err(RevProxyServerError::NoQuery),
        Some(q) => if q.len() == 0 {
            Err(RevProxyServerError::NoQuery)
        } else {
            match decode_text(q) {
                Some(d) => Ok(d),
                None => Err(RevProxyServerError::MalformedDirective),
            }
        },
    }
}

pub open spec fn opt_str(o: Option<&str>) -> Option<Seq<char>> {
    match o {
        Some(s) => Some(s@),
        None => None,
    }
}

/// Decides how requests are read: from the query string, or (when
/// `use_query` is off) from the request's own URI when `use_host_field` is on.
#[derive(Debug, Clone, Copy)]
pub struct RevProxyServer {
    pub use_host_field: bool,
    pub use_query: bool,
}

impl RevProxyServer {
    /// A plain `200` response whose body is `s`.
    pub fn mk_response(s: String) -> (r: ProxyResponse)
        ensures
            r.status == 200,
            r.headers@.len() == 0,
            r.body@ == encode_utf8(s@),
    {
        ProxyResponse { status: 200, headers: Vec::new(), body: s.as_str().as_bytes_vec() }
    }

    pub fn new(use_host_field: bool, use_query: bool) -> (r: Self)
        ensures
            r.use_host_field == use_host_field,
            r.use_query == use_query,
    {
        RevProxyServer { use_host_field, use_query }
    }

    /// The caller authority from the `Host` header value: the header must be
    /// there and be visible ASCII; a trailing `:443` or `:80` is dropped.
    pub fn get_local_addr(host: Option<&[u8]>) -> (r: Result<String, RevProxyServerError>)
        ensures
            match r {
                Ok(s) => local_addr_of(opt_bytes(host)) == Ok::<Seq<char>, RevProxyServerError>(
                    s@,
                ),
                Err(e) => local_addr_of(opt_bytes(host)) == Err::<Seq<char>, RevProxyServerError>(
                    e,
                ),
            },
    {
        match host {
            None => Err(RevProxyServerError::NoHostField),
            Some(b) => {
                if !is_visible_ascii(b) {
                    return Err(RevProxyServerError::InvalidHeaderValue);
                }
                let text = ascii_string(b);
                Ok(sanitize_authority(text.as_str()))
            },
        }
    }

    /// Reads the directive from the query string (without `?`).
    pub fn process_query(query: Option<&str>) -> (r: Result<RevProxyRequest, RevProxyServerError>)
        ensures
            match r {
                Ok(d) => query_result(opt_str(query)) == Ok::<DirectiveView, RevProxyServerError>(
                    d@,
                ) && d.wf() && d.local_addr@ == Seq::<char>::empty(),
                Err(e) => query_result(opt_str(query)) == Err::<
                    DirectiveView,
                    RevProxyServerError,
                >(e),
            },
    {
        match query {
            None => Err(RevProxyServerError::NoQuery),
            Some(q) => {
                if q.unicode_len() == 0 {
                    return Err(RevProxyServerError::NoQuery);
                }
                match decode_query(q) {
                    Some(d) => Ok(d),
                    None => Err(RevProxyServerError::MalformedDirective),
                }
            },
        }
    }

    /// The directive a request asks for, before its caller authority is read:
    /// from the query string when `use_query`, else from the request's URI
    /// when `use_host_field` (it must then be absolute).
    pub open spec fn directive_of(&self, query: Option<Seq<char>>, uri: Seq<char>) -> Result<
        DirectiveView,
        RevProxyServerError,
    > {
        if self.use_query {
            query_result(query)
        } else if self.use_host_field {
            match uri_normalized(uri) {
                Some(u) => Ok(
                    DirectiveView {
                        no_remove_host: false,
                        append: Seq::empty(),
                        drop: Seq::empty(),
                        host_rewrite: true,
                        rules: Seq::empty(),
                        dest: u,
                    },
                ),
                None => Err(RevProxyServerError::MalformedDirective),
            }
        } else {
            Err(RevProxyServerError::MalformedDirective)
        }
    }

    /// What `parse_request` gives: the directive and the caller authority, the
    /// directive's error first.
    pub open spec fn parsed(&self, query: Option<Seq<char>>, uri: Seq<char>, host: Option<Seq<u8>>) -> Result<
        (DirectiveView, Seq<char>),
        RevProxyServerError,
    > {
        match self.directive_of(query, uri) {
            Err(e) => Err(e),
            Ok(d) => match local_addr_of(host) {
                Err(e) => Err(e),
                Ok(a) => Ok((d, a)),
            },
        }
    }

    /// The directive for one request, from its query string (when
    /// `use_query`), or else from its URI `uri` (when `use_host_field`), with
    /// the caller authority from `host`, the `Host` header value.
    pub fn parse_request(&self, query: Option<&str>, uri: &str, host: Option<&[u8]>) -> (r: Result<
        RevProxyRequest,
        RevProxyServerError,
    >)
        ensures
            match r {
                Ok(d) => self.parsed(opt_str(query), uri@, opt_bytes(host)) == Ok::<
                    (DirectiveView, Seq<char>),
                    RevProxyServerError,
                >((d@, d.local_addr@)) && d.wf(),
                Err(e) => self.parsed(opt_str(query), uri@, opt_bytes(host)) == Err::<
                    (DirectiveView, Seq<char>),
                    RevProxyServerError,
                >(e),
            },
    {
        let mut request = if self.use_query {
            match Self::process_query(query) {
                Ok(d) => d,
                Err(e) => return Err(e),
            }
        } else if self.use_host_field {
            match UriWrapper::try_from(uri) {
                Some(u) => RevProxyRequest::new(u),
                None => return Err(RevProxyServerError::MalformedDirective),
            }
        } else {
            return Err(RevProxyServerError::MalformedDirective);
        };
        match Self::get_local_addr(host) {
            Ok(a) => {
                request.local_addr = a;
                Ok(request)
            },
            Err(e) => Err(e),
        }
    }
}

/// The response that reports `e`: its status code, and its message as body.
pub fn error_page(e: RevProxyServerError) -> (r: ProxyResponse)
    ensures
        r.status == error_status(e),
        r.headers@.len() == 0,
        r.body@ == encode_utf8(error_message(e)),
{
    ProxyResponse {
        status: e.status(),
        headers: Vec::new(),
        body: e.message().as_str().as_bytes_vec(),
    }
}

/// The response itself, or a `422 Unprocessable Entity` page whose body is
/// the error's message, whatever the error.
pub fn rust_error_to_page(result: Result<ProxyResponse, RevProxyServerError>) -> (r: ProxyResponse)
    ensures
        match result {
            Ok(p) => r == p,
            Err(e) => r.status == 422 && r.headers@.len() == 0 && r.body@ == encode_utf8(
                error_message(e),
            ),
        },
{
    match result {
        Ok(p) => p,
        Err(e) => unprocessable_entity(e),
    }
}

/// A `422 Unprocessable Entity` page whose body is the message of `e`.
pub fn unprocessable_entity(e: RevProxyServerError) -> (r: ProxyResponse)
    ensures
        r.status == 422,
        r.headers@.len() == 0,
        r.body@ == encode_utf8(error_message(e)),
{
    ProxyResponse { status: 422, headers: Vec::new(), body: e.message().as_str().as_bytes_vec() }
}

/// Errors about the request itself (its directive, its headers) are
/// answered with a client-error status, and every error page names the kind
/// of failure in its body.
pub proof fn lemma_request_errors_are_client_errors(e: RevProxyServerError)
    ensures
        (e is NoHostField || e is NoQuery || e is MalformedDirective || e is InvalidHeaderName
            || e is InvalidHeaderValue) ==> 400 <= error_status(e) < 500,
        error_message(e).len() > 0,
{
    reveal_strlit("No Host field in request");
    reveal_strlit("No query");
    reveal_strlit("Malformed directive in query");
    reveal_strlit("Invalid header name");
    reveal_strlit("Invalid header value");
    reveal_strlit("Rewrite rule failed");
    reveal_strlit("Upstream request failed");
    reveal_strlit("Failed building response");
}

/// What the proxy forwards upstream: the directive, and the headers to send.
#[derive(Debug)]
pub struct Forward {
    pub directive: RevProxyRequest,
    pub headers: Vec<(String, Vec<u8>)>,
}

impl RevProxyServer {
    /// The decisions taken before the upstream request: read the directive
    /// and the caller authority (`parse_request`), then build the headers to
    /// forward from the inbound ones (`sanitize_headers`).  No error here
    /// leads to any upstream contact.
    pub fn prepare(
        &self,
        query: Option<&str>,
        uri: &str,
        host: Option<&[u8]>,
        headers: &Vec<(String, Vec<u8>)>,
    ) -> (r: Result<Forward, RevProxyServerError>)
        ensures
            match self.parsed(opt_str(query), uri@, opt_bytes(host)) {
                Err(e) => r == Err::<Forward, RevProxyServerError>(e),
                Ok((d, a)) => match append_error(d.append) {
                    Some(e) => r == Err::<Forward, RevProxyServerError>(e),
                    None => match r {
                        Ok(f) => f.directive@ == d && f.directive.local_addr@ == a
                            && f.directive.wf() && headers_view(f.headers@) == sanitized(
                            headers_view(headers@),
                            d,
                        ),
                        Err(_) => false,
                    },
                },
            },
    {
        let directive = match self.parse_request(query, uri, host) {
            Ok(d) => d,
            Err(e) => return Err(e),
        };
        match sanitize_headers(headers, &directive) {
            Ok(h) => Ok(Forward { directive, headers: h }),
            Err(e) => Err(e),
        }
    }
}

/// A non-empty query in which no piece sets `dest` is refused as a malformed
/// directive, before anything is forwarded: `prepare` then fails with that
/// error, and its page is a client error that says so.
pub proof fn lemma_missing_dest_refused(q: Seq<char>)
    requires
        q.len() > 0,
        forall|i: int|
            0 <= i < split_amp(encode_utf8(q)).len() ==> !seg_names_dest(
                #[trigger] split_amp(encode_utf8(q))[i],
            ),
    ensures
        query_result(Some(q)) == Err::<DirectiveView, RevProxyServerError>(
            RevProxyServerError::MalformedDirective,
        ),
        400 <= error_status(RevProxyServerError::MalformedDirective) < 500,
{
    lemma_missing_dest(q);
}

} // verus!
