use vstd::prelude::*;

use crate::rewrite::{pattern_compiles, rules_view, rules_wf, RegexWrapper, RewriteRules};
use crate::text::{chars_of, push_char};

verus! {

/// The parts of a URI as `http::Uri` reads them: scheme, authority, path, query.
#[derive(Debug)]
pub struct UriParts {
    pub scheme: Option<String>,
    pub authority: Option<String>,
    pub path: String,
    pub query: Option<String>,
}

impl UriParts {
    pub open spec fn view_tuple(&self) -> (
        Option<Seq<char>>,
        Option<Seq<char>>,
        Seq<char>,
        Option<Seq<char>>,
    ) {
        (
            match self.scheme {
                Some(s) => Some(s@),
                None => None,
            },
            match self.authority {
                Some(a) => Some(a@),
                None => None,
            },
            self.path@,
            match self.query {
                Some(q) => Some(q@),
                None => None,
            },
        )
    }
}

/// How `http::Uri` splits `s` into scheme, authority, path and query, or
/// `None` where it refuses `s`.
pub uninterp spec fn uri_parse(s: Seq<char>) -> Option<
    (Option<Seq<char>>, Option<Seq<char>>, Seq<char>, Option<Seq<char>>),
>;

/// Relies on `http::Uri`'s `FromStr`, read back through the accessors
/// `scheme_str`, `authority`, `path` and `query`.
#[verifier::external_body]
fn parse_uri(s: &str) -> (r: Option<UriParts>)
    ensures
        uri_parse(s@) == match r {
            Some(p) => Some(p.view_tuple()),
            None => None,
        },
{
    s.parse::<http::Uri>().ok().map(
        |u| UriParts {
            scheme: u.scheme_str().map(|x| x.to_string()),
            authority: u.authority().map(|a| a.as_str().to_string()),
            path: u.path().to_string(),
            query: u.query().map(|q| q.to_string()),
        },
    )
}

/// The text of a parsed URI, as `http::Uri` writes it: `scheme://`, the
/// authority, the path, then `?query`.
pub open spec fn uri_text(
    p: (Option<Seq<char>>, Option<Seq<char>>, Seq<char>, Option<Seq<char>>),
) -> Seq<char> {
    (match p.0 {
        Some(s) => s + seq![':', '/', '/'],
        None => Seq::empty(),
    }) + (match p.1 {
        Some(a) => a,
        None => Seq::empty(),
    }) + p.2 + (match p.3 {
        Some(q) => seq!['?'] + q,
        None => Seq::empty(),
    })
}

/// The port text of an authority: what follows its last `:`, unless that
/// colon belongs to user information or an IPv6 literal; `None` when there is
/// no port.
pub open spec fn port_text(a: Seq<char>) -> Option<Seq<char>>
    decreases a.len(),
{
    if a.len() == 0 {
        None
    } else if a.last() == ':' {
        Some(Seq::empty())
    } else if a.last() == ']' || a.last() == '@' {
        None
    } else {
        match port_text(a.drop_last()) {
            Some(p) => Some(p.push(a.last())),
            None => None,
        }
    }
}

/// The value of a string of decimal digits.
pub open spec fn digits_value(s: Seq<char>) -> nat
    decreases s.len(),
{
    if s.len() == 0 {
        0
    } else {
        digits_value(s.drop_last()) * 10 + ((s.last() as u32) - ('0' as u32)) as nat
    }
}

/// An authority whose port, if it names one, is a number from 0 to 65535.
pub open spec fn port_in_range(a: Seq<char>) -> bool {
    match port_text(a) {
        None => true,
        Some(p) => p.len() == 0 || (p.len() <= 5 && (forall|i: int|
            0 <= i < p.len() ==> '0' <= #[trigger] p[i] <= '9') && digits_value(p) <= 65535),
    }
}

/// Whether a parsed URI has a scheme, and an authority whose port is in range.
pub open spec fn uri_absolute(
    p: (Option<Seq<char>>, Option<Seq<char>>, Seq<char>, Option<Seq<char>>),
) -> bool {
    p.0 is Some && match p.1 {
        Some(a) => port_in_range(a),
        None => false,
    }
}

/// Whether the authority `a` has a port in range (see `port_in_range`).
fn port_ok(a: &str) -> (r: bool)
    ensures
        r == port_in_range(a@),
{
    let c = chars_of(a);
    // find where the port text starts, scanning back from the end
    let mut j: usize = c.len();
    proof {
        assert(c@.take(j as int) =~= c@);
        match port_text(c@) {
            Some(p) => {
                assert(p + c@.skip(j as int) =~= p);
            },
            None => {},
        }
    }
    while j > 0 && c[j - 1] != ':' && c[j - 1] != ']' && c[j - 1] != '@'
        invariant
            j <= c@.len(),
            c@ == a@,
            port_text(a@) == match port_text(c@.take(j as int)) {
                Some(p) => Some(p + c@.skip(j as int)),
                None => None,
            },
        decreases j,
    {
        let ghost t = c@.take(j as int);
        assert(t.drop_last() =~= c@.take(j - 1));
        assert(t.last() == c@[j - 1]);
        proof {
            match port_text(c@.take(j as int - 1)) {
                Some(p) => {
                    assert(p.push(c@[j - 1]) + c@.skip(j as int) =~= p + c@.skip(j as int - 1));
                },
                None => {},
            }
        }
        j = j - 1;
    }
    if j == 0 || c[j - 1] != ':' {
        assert(j == 0 ==> c@.take(j as int) =~= Seq::<char>::empty());
        return true;
    }
    assert(port_text(c@.take(j as int)) == Some(Seq::<char>::empty()));
    assert(Seq::<char>::empty() + c@.skip(j as int) =~= c@.skip(j as int));
    let ghost p = c@.skip(j as int);
    let n = c.len() - j;
    if n == 0 {
        return true;
    }
    if n > 5 {
        return false;
    }
    let mut value: u32 = 0;
    let mut i: usize = j;
    assert(p.take(0) =~= Seq::<char>::empty());
    while i < c.len()
        invariant
            j <= i <= c@.len(),
            c@.len() - j <= 5,
            p == c@.skip(j as int),
            port_text(a@) == Some(p),
            p.len() > 0,
            forall|k: int| 0 <= k < i - j ==> '0' <= #[trigger] p[k] <= '9',
            value as nat == digits_value(p.take(i - j)),
            value < 100000,
            i - j <= 5,
            digits_value(p.take(i - j)) < pow10((i - j) as nat),
        decreases c@.len() - i,
    {
        let d = c[i];
        if !('0' <= d && d <= '9') {
            assert(p[i - j] == d);
            return false;
        }
        assert(p.take(i + 1 - j).drop_last() =~= p.take(i - j));
        assert(p.take(i + 1 - j).last() == d);
        let ghost old_value = value;
        value = value * 10 + (d as u32 - '0' as u32);
        proof {
            lemma_pow10_step((i - j) as nat, old_value as nat, (d as u32 - '0' as u32) as nat);
        }
        i = i + 1;
    }
    assert(p.take(i - j) =~= p);
    value <= 65535
}

pub open spec fn pow10(n: nat) -> nat
    decreases n,
{
    if n == 0 {
        1
    } else {
        10 * pow10((n - 1) as nat)
    }
}

proof fn lemma_pow10_step(n: nat, v: nat, d: nat)
    requires
        v < pow10(n),
        d < 10,
        n < 5,
    ensures
        v * 10 + d < pow10(n + 1),
        pow10(n + 1) <= 100000,
{
    reveal_with_fuel(pow10, 6);
    assert(v * 10 + d < pow10(n) * 10) by (nonlinear_arith)
        requires
            v < pow10(n),
            d < 10,
    ;
}

/// `t` is an absolute URI written the way `http::Uri` writes it back, so
/// parsing and writing it again gives `t` itself.
pub open spec fn uri_canonical(t: Seq<char>) -> bool {
    match uri_parse(t) {
        Some(p) => uri_absolute(p) && uri_text(p) == t,
        None => false,
    }
}

/// The canonical text of `s` when `s` is an absolute URI whose written form
/// reads back to itself, and `None` otherwise.
pub open spec fn uri_normalized(s: Seq<char>) -> Option<Seq<char>> {
    match uri_parse(s) {
        Some(p) => if uri_absolute(p) && uri_canonical(uri_text(p)) {
            Some(uri_text(p))
        } else {
            None
        },
        None => None,
    }
}

/// A canonical text is its own normal form.
pub proof fn lemma_canonical_normalized(t: Seq<char>)
    requires
        uri_canonical(t),
    ensures
        uri_normalized(t) == Some(t),
{
}

fn append_opt(out: &mut String, s: &Option<String>)
    ensures
        final(out)@ == old(out)@ + match s {
            Some(x) => x@,
            None => Seq::empty(),
        },
{
    match s {
        Some(x) => out.append(x.as_str()),
        None => {
            assert(out@ =~= out@ + Seq::<char>::empty());
        },
    }
}

fn write_uri(p: &UriParts) -> (r: String)
    ensures
        r@ == uri_text(p.view_tuple()),
{
    let mut out = String::new();
    match &p.scheme {
        Some(s) => {
            out.append(s.as_str());
            push_char(&mut out, ':');
            push_char(&mut out, '/');
            push_char(&mut out, '/');
        },
        None => {},
    }
    append_opt(&mut out, &p.authority);
    out.append(p.path.as_str());
    match &p.query {
        Some(q) => {
            push_char(&mut out, '?');
            out.append(q.as_str());
        },
        None => {},
    }
    assert(out@ =~= uri_text(p.view_tuple()));
    out
}

/// An absolute destination URI, held in the canonical text form that
/// `http::Uri` parses and writes back unchanged.
#[derive(Debug)]
pub struct UriWrapper {
    text: String,
}

impl View for UriWrapper {
    type V = Seq<char>;

    closed spec fn view(&self) -> Seq<char> {
        self.text@
    }
}

impl UriWrapper {
    pub open spec fn wf(&self) -> bool {
        uri_canonical(self@)
    }

    fn authority_ok(a: &Option<String>) -> (r: bool)
        ensures
            r == match a {
                Some(x) => port_in_range(x@),
                None => false,
            },
    {
        match a {
            Some(x) => port_ok(x.as_str()),
            None => false,
        }
    }

    /// Parses `s` as an absolute URI; `None` when it is not one, or when its
    /// written form does not read back to itself.
    pub fn try_from(s: &str) -> (r: Option<UriWrapper>)
        ensures
            match r {
                Some(u) => uri_normalized(s@) == Some(u@) && u.wf(),
                None => uri_normalized(s@) is None,
            },
    {
        let p1 = match parse_uri(s) {
            Some(p) => p,
            None => return None,
        };
        if p1.scheme.is_none() || !Self::authority_ok(&p1.authority) {
            return None;
        }
        let t = write_uri(&p1);
        let p2 = match parse_uri(t.as_str()) {
            Some(p) => p,
            None => return None,
        };
        if p2.scheme.is_none() || !Self::authority_ok(&p2.authority) {
            return None;
        }
        let t2 = write_uri(&p2);
        if t2 == t {
            Some(UriWrapper { text: t })
        } else {
            None
        }
    }

    /// The URI's text.
    pub fn as_str(&self) -> (r: &str)
        ensures
            r@ == self@,
    {
        self.text.as_str()
    }

    /// The URI's text, as `Display` would write it.
    pub fn to_string(&self) -> (r: String)
        ensures
            r@ == self@,
    {
        self.text.clone()
    }
}

/// The default of `host_rewrite`: links to the destination are rewritten
/// unless the query says otherwise.
pub fn _default_true() -> (r: bool)
    ensures
        r,
{
    true
}

/// The fields of a directive that travel in a query string.
pub struct DirectiveView {
    pub no_remove_host: bool,
    pub append: Seq<(Seq<char>, Seq<char>)>,
    pub drop: Seq<Seq<char>>,
    pub host_rewrite: bool,
    pub rules: Seq<(Seq<char>, Seq<char>)>,
    pub dest: Seq<char>,
}

/// A directive whose destination is canonical and whose patterns all compile:
/// what decoding can produce.
pub open spec fn directive_valid(d: DirectiveView) -> bool {
    &&& uri_canonical(d.dest)
    &&& forall|i: int| 0 <= i < d.rules.len() ==> pattern_compiles(#[trigger] d.rules[i].0)
}

pub open spec fn pairs_view(v: Seq<(String, String)>) -> Seq<(Seq<char>, Seq<char>)> {
    v.map_values(|p: (String, String)| (p.0@, p.1@))
}

pub open spec fn strings_view(v: Seq<String>) -> Seq<Seq<char>> {
    v.map_values(|s: String| s@)
}

/// What one request asks of the proxy: where to forward it, how to edit the
/// forwarded headers, and how to rewrite the response text.
#[derive(Debug)]
pub struct RevProxyRequest {
    /// Forward the inbound `Host` header (query key `default`; default false).
    pub no_remove_host: bool,
    /// Headers to add, in order, as (name, value) (`append[i][0]`, `append[i][1]`).
    pub append: Vec<(String, String)>,
    /// Names of headers to remove, any case (`drop[i]`).
    pub drop: Vec<String>,
    /// Rewrite links to the destination into links back through the proxy
    /// (`host_rewrite`; default true).
    pub host_rewrite: bool,
    /// Rules applied to the response text, in order (`custom_rewrite[i][find]`,
    /// `custom_rewrite[i][replace]`); none when the query names none.
    pub custom_rewrite: Vec<RewriteRules>,
    /// The authority the caller used to reach the proxy, from its `Host`
    /// header, without `:80` or `:443`; never part of the query.
    pub local_addr: String,
    /// Where the request is forwarded (`dest`; required).
    pub dest: UriWrapper,
}

impl View for RevProxyRequest {
    type V = DirectiveView;

    open spec fn view(&self) -> DirectiveView {
        DirectiveView {
            no_remove_host: self.no_remove_host,
            append: pairs_view(self.append@),
            drop: strings_view(self.drop@),
            host_rewrite: self.host_rewrite,
            rules: rules_view(self.custom_rewrite@),
            dest: self.dest@,
        }
    }
}

impl RevProxyRequest {
    pub open spec fn wf(&self) -> bool {
        self.dest.wf() && rules_wf(self.custom_rewrite@)
    }

    /// A directive for `dest` with every other field at its default: keep no
    /// `Host` header, edit no header, rewrite links to `dest`, no rules.
    pub fn new(dest: UriWrapper) -> (r: RevProxyRequest)
        ensures
            r@ == (DirectiveView {
                no_remove_host: false,
                append: Seq::empty(),
                drop: Seq::empty(),
                host_rewrite: true,
                rules: Seq::empty(),
                dest: dest@,
            }),
            r.local_addr@ == Seq::<char>::empty(),
            r.wf() == dest.wf(),
    {
        let r = RevProxyRequest {
            no_remove_host: false,
            append: Vec::new(),
            drop: Vec::new(),
            host_rewrite: _default_true(),
            custom_rewrite: Vec::new(),
            local_addr: String::new(),
            dest,
        };
        assert(r@.append =~= Seq::<(Seq<char>, Seq<char>)>::empty());
        assert(r@.drop =~= Seq::<Seq<char>>::empty());
        assert(r@.rules =~= Seq::<(Seq<char>, Seq<char>)>::empty());
        r
    }

    /// A well-formed directive is one that decoding can produce.
    pub proof fn lemma_wf_valid(&self)
        requires
            self.wf(),
        ensures
            directive_valid(self@),
    {
        assert forall|i: int| 0 <= i < self@.rules.len() implies pattern_compiles(
            #[trigger] self@.rules[i].0,
        ) by {
            assert(self.custom_rewrite@[i].find.wf());
        }
    }
}

} // verus!
