use vstd::prelude::*;
use vstd::utf8::encode_utf8;

use crate::directive::{DirectiveView, RevProxyRequest};
use crate::server::RevProxyServerError;

verus! {

/// A token character, the only kind a header name may hold.
pub open spec fn is_tchar(c: char) -> bool {
    ('0' <= c <= '9') || ('a' <= c <= 'z') || ('A' <= c <= 'Z') || c == '!' || c == '#' || c
        == '$' || c == '%' || c == '&' || c == '\'' || c == '*' || c == '+' || c == '-' || c
        == '.' || c == '^' || c == '_' || c == '`' || c == '|' || c == '~'
}

/// A valid header name: 1 to 65535 token characters.
pub open spec fn name_ok(s: Seq<char>) -> bool {
    0 < s.len() <= 65535 && forall|i: int| 0 <= i < s.len() ==> is_tchar(#[trigger] s[i])
}

pub open spec fn lower_char(c: char) -> char {
    if 'A' <= c <= 'Z' {
        ((c as u32) + 32) as char
    } else {
        c
    }
}

/// `s` with ASCII capitals made small.
pub open spec fn lower(s: Seq<char>) -> Seq<char> {
    s.map_values(|c: char| lower_char(c))
}

/// A valid header value: tabs, and no control character or DEL.
pub open spec fn value_ok(s: Seq<char>) -> bool {
    forall|i: int|
        0 <= i < s.len() ==> #[trigger] s[i] == '\t' || (s[i] as u32 >= 32 && s[i] as u32 != 127)
}

/// Relies on `http::HeaderName::from_bytes`: it accepts 1 to 65535 bytes that
/// are all token characters, and its `as_str` gives them lower-cased.
#[verifier::external_body]
fn header_name(s: &str) -> (r: Option<String>)
    ensures
        r is Some <==> name_ok(s@),
        r matches Some(n) ==> n@ == lower(s@),
{
    http::HeaderName::from_bytes(s.as_bytes()).ok().map(|n| n.as_str().to_string())
}

/// Relies on `http::HeaderValue::from_str`: it accepts text whose bytes are
/// all a tab or at least 32 and not 127, and holds those bytes.
#[verifier::external_body]
fn header_value(s: &str) -> (r: Option<Vec<u8>>)
    ensures
        r is Some <==> value_ok(s@),
        r matches Some(v) ==> v@ == encode_utf8(s@),
{
    http::HeaderValue::from_str(s).ok().map(|v| v.as_bytes().to_vec())
}

pub open spec fn headers_view(h: Seq<(String, Vec<u8>)>) -> Seq<(Seq<char>, Seq<u8>)> {
    h.map_values(|p: (String, Vec<u8>)| (p.0@, p.1@))
}

/// `host`
pub open spec fn host_name() -> Seq<char> {
    seq!['h', 'o', 's', 't']
}

/// Whether the directive removes headers called `n` (a lower-case name):
/// `host` unless it is kept, and every valid name of the drop list.
pub open spec fn removed(d: DirectiveView, n: Seq<char>) -> bool {
    (!d.no_remove_host && n == host_name()) || exists|j: int|
        0 <= j < d.drop.len() && name_ok(#[trigger] d.drop[j]) && lower(d.drop[j]) == n
}

/// The headers that stay, in their order.
pub open spec fn kept(h: Seq<(Seq<char>, Seq<u8>)>, d: DirectiveView) -> Seq<
    (Seq<char>, Seq<u8>),
>
    decreases h.len(),
{
    if h.len() == 0 {
        h
    } else if removed(d, h.last().0) {
        kept(h.drop_last(), d)
    } else {
        kept(h.drop_last(), d).push(h.last())
    }
}

/// The headers the directive appends, in its order.
pub open spec fn appended(d: DirectiveView) -> Seq<(Seq<char>, Seq<u8>)> {
    d.append.map_values(|p: (Seq<char>, Seq<char>)| (lower(p.0), encode_utf8(p.1)))
}

/// The first pair of the append list that cannot be a header, if any: a bad
/// name is reported before a bad value of the same pair.
pub open spec fn append_error(a: Seq<(Seq<char>, Seq<char>)>) -> Option<RevProxyServerError>
    decreases a.len(),
{
    if a.len() == 0 {
        None
    } else if !name_ok(a[0].0) {
        Some(RevProxyServerError::InvalidHeaderName)
    } else if !value_ok(a[0].1) {
        Some(RevProxyServerError::InvalidHeaderValue)
    } else {
        append_error(a.skip(1))
    }
}

/// The forwarded headers: those not removed, then the appended ones.
pub open spec fn sanitized(h: Seq<(Seq<char>, Seq<u8>)>, d: DirectiveView) -> Seq<
    (Seq<char>, Seq<u8>),
> {
    kept(h, d) + appended(d)
}

fn host_string() -> (r: String)
    ensures
        r@ == host_name(),
{
    let r = String::from_str("host");
    proof {
        reveal_strlit("host");
    }
    r
}

pub open spec fn in_names(v: Seq<String>, n: Seq<char>) -> bool {
    exists|j: int| 0 <= j < v.len() && (#[trigger] v[j])@ == n
}

/// Whether one of the first `j` names of the drop list, made lower-case, is `n`.
pub open spec fn dropped_by(d: DirectiveView, j: int, n: Seq<char>) -> bool {
    exists|m: int| 0 <= m < j && name_ok(#[trigger] d.drop[m]) && lower(d.drop[m]) == n
}

proof fn lemma_dropped_by_step(d: DirectiveView, j: int, n: Seq<char>)
    requires
        0 <= j < d.drop.len(),
    ensures
        dropped_by(d, j + 1, n) <==> (dropped_by(d, j, n) || (name_ok(d.drop[j]) && lower(
            d.drop[j],
        ) == n)),
{
    if dropped_by(d, j + 1, n) {
        let m = choose|m: int| 0 <= m < j + 1 && name_ok(#[trigger] d.drop[m]) && lower(d.drop[m]) == n;
        if m < j {
            assert(dropped_by(d, j, n));
        }
    }
    if name_ok(d.drop[j]) && lower(d.drop[j]) == n {
        assert(0 <= j < j + 1 && name_ok(d.drop[j]) && lower(d.drop[j]) == n);
    }
}

fn contains_string(v: &Vec<String>, s: &String) -> (r: bool)
    ensures
        r == in_names(v@, s@),
{
    let mut i: usize = 0;
    while i < v.len()
        invariant
            i <= v@.len(),
            forall|j: int| 0 <= j < i ==> (#[trigger] v@[j])@ != s@,
        decreases v@.len() - i,
    {
        if v[i] == *s {
            return true;
        }
        i = i + 1;
    }
    false
}

/// Builds the headers to forward upstream from the inbound ones (`headers`,
/// with lower-case names): drops `host` unless the directive keeps it, drops
/// every header the drop list names (any case), then appends the directive's
/// pairs in order, beside any of the same name.  Fails on the first pair whose
/// name or value cannot be a header.  `headers` itself is left as it is.
pub fn sanitize_headers(headers: &Vec<(String, Vec<u8>)>, d: &RevProxyRequest) -> (r: Result<
    Vec<(String, Vec<u8>)>,
    RevProxyServerError,
>)
    ensures
        match r {
            Ok(v) => append_error(d@.append) is None && headers_view(v@) == sanitized(
                headers_view(headers@),
                d@,
            ),
            Err(e) => append_error(d@.append) == Some(e),
        },
{
    let ghost dv = d@;
    // the lower-case names to remove
    let mut names: Vec<String> = Vec::new();
    if !d.no_remove_host {
        names.push(host_string());
    }
    let mut j: usize = 0;
    assert forall|n: Seq<char>|
        #![trigger in_names(names@, n)]
        #![trigger dropped_by(dv, 0, n)]
        in_names(names@, n) <==> ((!dv.no_remove_host && n == host_name()) || dropped_by(
            dv,
            0,
            n,
        )) by {
        if in_names(names@, n) {
            let k = choose|k: int| 0 <= k < names@.len() && (#[trigger] names@[k])@ == n;
        }
        if !dv.no_remove_host && n == host_name() {
            assert(names@[0]@ == n);
        }
    }
    while j < d.drop.len()
        invariant
            dv == d@,
            j <= dv.drop.len(),
            forall|n: Seq<char>|
                #![trigger in_names(names@, n)]
                #![trigger dropped_by(dv, j as int, n)]
                in_names(names@, n) <==> ((!dv.no_remove_host && n == host_name())
                    || dropped_by(dv, j as int, n)),
        decreases dv.drop.len() - j,
    {
        let ghost before = names@;
        let opt = header_name(d.drop[j].as_str());
        match opt {
            Some(n) => {
                names.push(n);
            },
            None => {},
        }
        assert forall|x: Seq<char>|
            #![trigger in_names(names@, x)]
            #![trigger dropped_by(dv, j + 1, x)]
            in_names(names@, x) <==> ((!dv.no_remove_host && x == host_name()) || dropped_by(
                dv,
                j + 1,
                x,
            )) by {
            lemma_dropped_by_step(dv, j as int, x);
            if in_names(names@, x) {
                let k = choose|k: int| 0 <= k < names@.len() && (#[trigger] names@[k])@ == x;
                if k < before.len() {
                    assert(before[k]@ == x);
                    assert(in_names(before, x));
                }
            }
            if in_names(before, x) {
                let k = choose|k: int| 0 <= k < before.len() && (#[trigger] before[k])@ == x;
                assert(names@[k] == before[k]);
            }
            if opt is Some && x == lower(dv.drop[j as int]) {
                assert(names@[before.len() as int]@ == x);
            }
        }
        j = j + 1;
    }
    assert(forall|n: Seq<char>| dropped_by(dv, dv.drop.len() as int, n) == (exists|m: int|
        0 <= m < dv.drop.len() && name_ok(#[trigger] dv.drop[m]) && lower(dv.drop[m]) == n));
    // keep what is not removed
    let mut out: Vec<(String, Vec<u8>)> = Vec::new();
    let mut i: usize = 0;
    let ghost hv = headers_view(headers@);
    assert(hv.take(0) =~= Seq::<(Seq<char>, Seq<u8>)>::empty());
    while i < headers.len()
        invariant
            dv == d@,
            hv == headers_view(headers@),
            i <= hv.len(),
            forall|n: Seq<char>| #[trigger] in_names(names@, n) <==> removed(dv, n),
            headers_view(out@) == kept(hv.take(i as int), dv),
        decreases hv.len() - i,
    {
        let h = &headers[i];
        assert(hv.take(i + 1).drop_last() =~= hv.take(i as int));
        assert(hv.take(i + 1).last() == (h.0@, h.1@));
        if !contains_string(&names, &h.0) {
            let ghost before = out@;
            out.push((h.0.clone(), h.1.clone()));
            assert(headers_view(out@) =~= headers_view(before).push((h.0@, h.1@)));
        }
        i = i + 1;
    }
    assert(hv.take(i as int) =~= hv);
    // append, in order
    let mut k: usize = 0;
    let ghost base = headers_view(out@);
    assert(appended(dv).take(0) =~= Seq::<(Seq<char>, Seq<u8>)>::empty());
    assert(base + appended(dv).take(0) =~= base);
    assert(dv.append.skip(0) =~= dv.append);
    while k < d.append.len()
        invariant
            dv == d@,
            k <= dv.append.len(),
            base == kept(hv, dv),
            headers_view(out@) == base + appended(dv).take(k as int),
            append_error(dv.append) == append_error(dv.append.skip(k as int)),
        decreases dv.append.len() - k,
    {
        let pair = &d.append[k];
        let ghost rest = dv.append.skip(k as int);
        assert(rest[0] == (pair.0@, pair.1@));
        assert(rest.skip(1) =~= dv.append.skip(k + 1));
        let name = match header_name(pair.0.as_str()) {
            Some(n) => n,
            None => return Err(RevProxyServerError::InvalidHeaderName),
        };
        let value = match header_value(pair.1.as_str()) {
            Some(v) => v,
            None => return Err(RevProxyServerError::InvalidHeaderValue),
        };
        let ghost before = out@;
        out.push((name, value));
        assert(headers_view(out@) =~= headers_view(before).push((name@, value@)));
        assert(appended(dv).take(k + 1) =~= appended(dv).take(k as int).push((name@, value@)));
        k = k + 1;
    }
    assert(appended(dv).take(k as int) =~= appended(dv));
    assert(dv.append.skip(k as int) =~= Seq::<(Seq<char>, Seq<char>)>::empty());
    Ok(out)
}

proof fn lemma_contains_concat<A>(a: Seq<A>, b: Seq<A>, x: A)
    ensures
        (a + b).contains(x) <==> a.contains(x) || b.contains(x),
{
    if (a + b).contains(x) {
        let i = choose|i: int| 0 <= i < (a + b).len() && (a + b)[i] == x;
        if i >= a.len() {
            assert(b[i - a.len()] == x);
        }
    }
    if a.contains(x) {
        let i = choose|i: int| 0 <= i < a.len() && a[i] == x;
        assert((a + b)[i] == x);
    }
    if b.contains(x) {
        let i = choose|i: int| 0 <= i < b.len() && b[i] == x;
        assert((a + b)[a.len() + i] == x);
    }
}

proof fn lemma_kept_concat(a: Seq<(Seq<char>, Seq<u8>)>, b: Seq<(Seq<char>, Seq<u8>)>, d: DirectiveView)
    ensures
        kept(a + b, d) == kept(a, d) + kept(b, d),
    decreases b.len(),
{
    if b.len() == 0 {
        assert(a + b =~= a);
        assert(kept(a, d) + kept(b, d) =~= kept(a, d));
    } else {
        assert((a + b).drop_last() =~= a + b.drop_last());
        lemma_kept_concat(a, b.drop_last(), d);
        if !removed(d, b.last().0) {
            assert(kept(a, d) + kept(b.drop_last(), d).push(b.last()) =~= (kept(a, d) + kept(
                b.drop_last(),
                d,
            )).push(b.last()));
        }
    }
}

proof fn lemma_kept_idem(h: Seq<(Seq<char>, Seq<u8>)>, d: DirectiveView)
    ensures
        kept(kept(h, d), d) == kept(h, d),
    decreases h.len(),
{
    if h.len() > 0 {
        lemma_kept_idem(h.drop_last(), d);
        if !removed(d, h.last().0) {
            let k = kept(h.drop_last(), d).push(h.last());
            assert(k.drop_last() =~= kept(h.drop_last(), d));
        }
    }
}

proof fn lemma_kept_sub(h: Seq<(Seq<char>, Seq<u8>)>, d: DirectiveView, x: (Seq<char>, Seq<u8>))
    requires
        kept(h, d).contains(x),
    ensures
        h.contains(x),
    decreases h.len(),
{
    if h.len() > 0 {
        let k0 = kept(h.drop_last(), d);
        if !removed(d, h.last().0) {
            lemma_contains_concat(k0, seq![h.last()], x);
            assert(k0.push(h.last()) =~= k0 + seq![h.last()]);
        }
        if k0.contains(x) {
            lemma_kept_sub(h.drop_last(), d, x);
            let i = choose|i: int| 0 <= i < h.drop_last().len() && h.drop_last()[i] == x;
            assert(h[i] == x);
        } else {
            assert(seq![h.last()].contains(x) ==> x == h.last());
            assert(h[h.len() - 1] == h.last());
        }
    }
}

/// Sanitizing twice with one directive forwards the same set of headers as
/// sanitizing once: the second pass keeps all that the first kept, and what
/// it appends again is already there.
pub proof fn lemma_sanitize_idempotent(h: Seq<(Seq<char>, Seq<u8>)>, d: DirectiveView)
    ensures
        sanitized(sanitized(h, d), d).to_set() == sanitized(h, d).to_set(),
{
    let k = kept(h, d);
    let a = appended(d);
    lemma_kept_concat(k, a, d);
    lemma_kept_idem(h, d);
    let twice = k + kept(a, d) + a;
    assert(sanitized(sanitized(h, d), d) == twice);
    assert forall|x: (Seq<char>, Seq<u8>)| twice.to_set().contains(x) <==> (k + a).to_set().contains(
        x,
    ) by {
        lemma_contains_concat(k + kept(a, d), a, x);
        lemma_contains_concat(k, kept(a, d), x);
        lemma_contains_concat(k, a, x);
        if kept(a, d).contains(x) {
            lemma_kept_sub(a, d, x);
        }
    }
    assert(twice.to_set() =~= (k + a).to_set());
}

} // verus!
