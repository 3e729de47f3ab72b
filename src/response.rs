use vstd::prelude::*;
use vstd::slice::slice_to_vec;
use vstd::string::StrSliceExecFns;
use vstd::utf8::encode_utf8;

use crate::codec::{encode_query, encode_text};
use crate::directive::{DirectiveView, RevProxyRequest};
use crate::encoding::{charset_label, decoded, label_known, resolve};
use crate::rewrite::{apply_rules, rules_applied};
use crate::headers::headers_view;
use crate::server::RevProxyServerError;
use crate::text::{push_char, replace_literal, replace_lit};

verus! {

/// The address that links to the destination are turned into:
/// `scheme://authority/?` followed by the directive's query.
pub open spec fn self_url(d: DirectiveView, authority: Seq<char>, scheme: Seq<char>) -> Seq<char> {
    scheme + seq![':', '/', '/'] + authority + seq!['/', '?'] + encode_text(d)
}

/// The text after the self-reference step: every literal occurrence of the
/// destination replaced by `self_url` when the directive asks for it, the
/// text itself otherwise.
pub open spec fn self_rewritten(
    d: DirectiveView,
    authority: Seq<char>,
    scheme: Seq<char>,
    t: Seq<char>,
) -> Seq<char> {
    if d.host_rewrite {
        replace_lit(t, d.dest, self_url(d, authority, scheme))
    } else {
        t
    }
}

/// The body sent back for an upstream body `body` whose `Content-Type` is
/// `content_type`, or `None` where a rewrite rule fails.  An unknown charset,
/// or bytes that do not decode cleanly, leave the body as it came; otherwise
/// the decoded text goes through the self-reference step and then the rules,
/// and is sent as UTF-8.
pub open spec fn body_out(
    d: DirectiveView,
    authority: Seq<char>,
    scheme: Seq<char>,
    content_type: Option<Seq<u8>>,
    body: Seq<u8>,
) -> Option<Seq<u8>> {
    let label = charset_label(content_type);
    if !label_known(label) || decoded(label, body).1 {
        Some(body)
    } else {
        match rules_applied(
            self_rewritten(d, authority, scheme, decoded(label, body).0),
            d.rules,
        ) {
            Some(t) => Some(encode_utf8(t)),
            None => None,
        }
    }
}

/// Replaces every literal occurrence of the destination in `text` by the
/// address of this proxy (reached as `scheme://` + the caller authority)
/// carrying the directive again, so that followed links come back here.
pub fn rewrite_self_references(text: &str, d: &RevProxyRequest, scheme: &str) -> (r: String)
    ensures
        r@ == replace_lit(text@, d@.dest, self_url(d@, d.local_addr@, scheme@)),
{
    let query = encode_query(d);
    let mut url = String::new();
    url.append(scheme);
    push_char(&mut url, ':');
    push_char(&mut url, '/');
    push_char(&mut url, '/');
    url.append(d.local_addr.as_str());
    push_char(&mut url, '/');
    push_char(&mut url, '?');
    url.append(query.as_str());
    assert(url@ =~= self_url(d@, d.local_addr@, scheme@));
    replace_literal(text, d.dest.as_str(), url.as_str())
}

pub open spec fn opt_bytes(o: Option<&[u8]>) -> Option<Seq<u8>> {
    match o {
        Some(b) => Some(b@),
        None => None,
    }
}

/// Turns the upstream body into the body sent back (see `body_out`); the
/// directive's caller authority and `scheme` form the self-reference address.
pub fn transform_body(
    d: &RevProxyRequest,
    scheme: &str,
    content_type: Option<&[u8]>,
    body: &[u8],
) -> (r: Result<Vec<u8>, RevProxyServerError>)
    ensures
        match r {
            Ok(b) => body_out(d@, d.local_addr@, scheme@, opt_bytes(content_type), body@) == Some(
                b@,
            ),
            Err(e) => e == RevProxyServerError::RewriteEngineError && body_out(
                d@,
                d.local_addr@,
                scheme@,
                opt_bytes(content_type),
                body@,
            ) is None,
        },
{
    let enc = match resolve(content_type) {
        Some(e) => e,
        None => return Ok(slice_to_vec(body)),
    };
    let (text, had_errors) = enc.decode(body);
    if had_errors {
        return Ok(slice_to_vec(body));
    }
    let text = if d.host_rewrite {
        rewrite_self_references(text.as_str(), d, scheme)
    } else {
        text
    };
    match apply_rules(text, &d.custom_rewrite) {
        Some(t) => Ok(t.as_str().as_bytes_vec()),
        None => Err(RevProxyServerError::RewriteEngineError),
    }
}

/// When the body does not decode cleanly under its encoding, the bytes sent
/// back are exactly the bytes that came.
pub proof fn lemma_binary_safe(
    d: DirectiveView,
    authority: Seq<char>,
    scheme: Seq<char>,
    content_type: Option<Seq<u8>>,
    body: Seq<u8>,
)
    requires
        !label_known(charset_label(content_type)) || decoded(charset_label(content_type), body).1,
    ensures
        body_out(d, authority, scheme, content_type, body) == Some(body),
{
}

/// With the self-reference rewrite off, that step changes nothing, and the
/// body sent back is what the rules alone make of the decoded text, whatever
/// the caller authority and scheme.
pub proof fn lemma_no_self_rewrite(
    d: DirectiveView,
    authority: Seq<char>,
    scheme: Seq<char>,
    content_type: Option<Seq<u8>>,
    body: Seq<u8>,
)
    requires
        !d.host_rewrite,
    ensures
        forall|t: Seq<char>| self_rewritten(d, authority, scheme, t) == t,
        ({
            let label = charset_label(content_type);
            label_known(label) && !decoded(label, body).1 ==> body_out(
                d,
                authority,
                scheme,
                content_type,
                body,
            ) == match rules_applied(decoded(label, body).0, d.rules) {
                Some(t) => Some(encode_utf8(t)),
                None => None,
            }
        }),
{
}

/// A response to send back: status, headers (lower-case names) and body.
#[derive(Debug)]
pub struct ProxyResponse {
    pub status: u16,
    pub headers: Vec<(String, Vec<u8>)>,
    pub body: Vec<u8>,
}

/// The first value of the header called `n`, as `HeaderMap::get` gives it.
pub open spec fn header_named(h: Seq<(Seq<char>, Seq<u8>)>, n: Seq<char>) -> Option<Seq<u8>>
    decreases h.len(),
{
    if h.len() == 0 {
        None
    } else if h[0].0 == n {
        Some(h[0].1)
    } else {
        header_named(h.skip(1), n)
    }
}

/// Headers that describe how the body is framed, which no longer hold once
/// the body is sent again.
pub open spec fn is_framing(n: Seq<char>) -> bool {
    n == "content-length"@ || n == "transfer-encoding"@
}

/// The upstream headers without the framing ones, in their order.
pub open spec fn framing_free(h: Seq<(Seq<char>, Seq<u8>)>) -> Seq<(Seq<char>, Seq<u8>)>
    decreases h.len(),
{
    if h.len() == 0 {
        h
    } else if is_framing(h.last().0) {
        framing_free(h.drop_last())
    } else {
        framing_free(h.drop_last()).push(h.last())
    }
}

fn find_header<'a>(h: &'a Vec<(String, Vec<u8>)>, n: &String) -> (r: Option<&'a [u8]>)
    ensures
        opt_bytes(r) == header_named(headers_view(h@), n@),
{
    let ghost hv = headers_view(h@);
    let mut i: usize = 0;
    assert(hv.skip(0) =~= hv);
    while i < h.len()
        invariant
            hv == headers_view(h@),
            i <= h@.len(),
            header_named(hv, n@) == header_named(hv.skip(i as int), n@),
        decreases h@.len() - i,
    {
        assert(hv.skip(i as int)[0] == (h@[i as int].0@, h@[i as int].1@));
        assert(hv.skip(i as int).skip(1) =~= hv.skip(i + 1));
        if h[i].0 == *n {
            return Some(h[i].1.as_slice());
        }
        i = i + 1;
    }
    None
}

/// The response sent back for an upstream one: its status, its headers but
/// the framing ones (the length is that of the body actually sent), and the
/// body made by `transform_body` under the upstream `Content-Type`.
pub fn reassemble(
    d: &RevProxyRequest,
    scheme: &str,
    status: u16,
    headers: &Vec<(String, Vec<u8>)>,
    body: &[u8],
) -> (r: Result<ProxyResponse, RevProxyServerError>)
    ensures
        ({
            let ct = header_named(headers_view(headers@), "content-type"@);
            match r {
                Ok(p) => p.status == status && headers_view(p.headers@) == framing_free(
                    headers_view(headers@),
                ) && body_out(d@, d.local_addr@, scheme@, ct, body@) == Some(p.body@),
                Err(e) => e == RevProxyServerError::RewriteEngineError && body_out(
                    d@,
                    d.local_addr@,
                    scheme@,
                    ct,
                    body@,
                ) is None,
            }
        }),
{
    let content_type = String::from_str("content-type");
    let out_body = transform_body(d, scheme, find_header(headers, &content_type), body);
    let out_body = match out_body {
        Ok(b) => b,
        Err(e) => return Err(e),
    };
    let length = String::from_str("content-length");
    let encoding = String::from_str("transfer-encoding");
    let ghost hv = headers_view(headers@);
    let mut out: Vec<(String, Vec<u8>)> = Vec::new();
    let mut i: usize = 0;
    assert(hv.take(0) =~= Seq::<(Seq<char>, Seq<u8>)>::empty());
    while i < headers.len()
        invariant
            hv == headers_view(headers@),
            length@ == "content-length"@,
            encoding@ == "transfer-encoding"@,
            i <= hv.len(),
            headers_view(out@) == framing_free(hv.take(i as int)),
        decreases hv.len() - i,
    {
        let h = &headers[i];
        assert(hv.take(i + 1).drop_last() =~= hv.take(i as int));
        assert(hv.take(i + 1).last() == (h.0@, h.1@));
        if !(h.0 == length || h.0 == encoding) {
            let ghost before = out@;
            out.push((h.0.clone(), h.1.clone()));
            assert(headers_view(out@) =~= headers_view(before).push((h.0@, h.1@)));
        }
        i = i + 1;
    }
    assert(hv.take(i as int) =~= hv);
    Ok(ProxyResponse { status, headers: out, body: out_body })
}

} // verus!
