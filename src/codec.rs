use vstd::prelude::*;
use vstd::utf8::{decode_utf8, encode_utf8, valid_utf8};

use crate::directive::{directive_valid, uri_normalized, DirectiveView, RevProxyRequest, UriWrapper};
use crate::query::{
    join_amp, lemma_pct_plain, lemma_pct_round_trip, lemma_split_eq_pair, lemma_split_join, no_byte,
    pct_byte, pct_decode, pct_decode_exec, pct_encode, push_pct, split_amp, split_amp_exec, split_eq,
    split_eq_exec,
};
use crate::rewrite::{pattern_compiles, rules_view, rules_wf, RegexWrapper, RewriteRules};

verus! {

/// The decimal digits of `n`, most significant first.
pub open spec fn dec(n: nat) -> Seq<u8>
    decreases n,
{
    if n < 10 {
        seq![(0x30 + n) as u8]
    } else {
        dec(n / 10).push((0x30 + n % 10) as u8)
    }
}

/// Appends the decimal digits of `n`.
pub fn push_dec(out: &mut Vec<u8>, n: usize)
    ensures
        final(out)@ == old(out)@ + dec(n as nat),
    decreases n,
{
    if n >= 10 {
        push_dec(out, n / 10);
    }
    out.push(0x30u8 + (n % 10) as u8);
    assert(final(out)@ =~= old(out)@ + dec(n as nat));
}

/// `default`: keep the inbound `Host` header.
pub open spec fn key_default() -> Seq<u8> {
    seq![0x64u8, 0x65, 0x66, 0x61, 0x75, 0x6c, 0x74]
}

/// `host_rewrite`: rewrite links to the destination.
pub open spec fn key_host_rewrite() -> Seq<u8> {
    seq![0x68u8, 0x6f, 0x73, 0x74, 0x5f, 0x72, 0x65, 0x77, 0x72, 0x69, 0x74, 0x65]
}

/// `dest`: the destination URI.
pub open spec fn key_dest() -> Seq<u8> {
    seq![0x64u8, 0x65, 0x73, 0x74]
}

/// `append[`
pub open spec fn prefix_append() -> Seq<u8> {
    seq![0x61u8, 0x70, 0x70, 0x65, 0x6e, 0x64, 0x5b]
}

/// `drop[`
pub open spec fn prefix_drop() -> Seq<u8> {
    seq![0x64u8, 0x72, 0x6f, 0x70, 0x5b]
}

/// `custom_rewrite[`
pub open spec fn prefix_rule() -> Seq<u8> {
    seq![0x63u8, 0x75, 0x73, 0x74, 0x6f, 0x6d, 0x5f, 0x72, 0x65, 0x77, 0x72, 0x69, 0x74, 0x65, 0x5b]
}

/// `][0]`, `][1]`: the name and the value of a header pair.
pub open spec fn suffix_tuple(part: u8) -> Seq<u8> {
    seq![0x5du8, 0x5b, (0x30 + part) as u8, 0x5d]
}

/// `]`
pub open spec fn suffix_close() -> Seq<u8> {
    seq![0x5du8]
}

/// `][find]`
pub open spec fn suffix_find() -> Seq<u8> {
    seq![0x5du8, 0x5b, 0x66, 0x69, 0x6e, 0x64, 0x5d]
}

/// `][replace]`
pub open spec fn suffix_replace() -> Seq<u8> {
    seq![0x5du8, 0x5b, 0x72, 0x65, 0x70, 0x6c, 0x61, 0x63, 0x65, 0x5d]
}

pub open spec fn key_append_name(i: nat) -> Seq<u8> {
    prefix_append() + dec(i) + suffix_tuple(0)
}

pub open spec fn key_append_value(i: nat) -> Seq<u8> {
    prefix_append() + dec(i) + suffix_tuple(1)
}

pub open spec fn key_drop(i: nat) -> Seq<u8> {
    prefix_drop() + dec(i) + suffix_close()
}

pub open spec fn key_find(i: nat) -> Seq<u8> {
    prefix_rule() + dec(i) + suffix_find()
}

pub open spec fn key_replace(i: nat) -> Seq<u8> {
    prefix_rule() + dec(i) + suffix_replace()
}

/// `true` / `false`
pub open spec fn bool_bytes(b: bool) -> Seq<u8> {
    if b {
        seq![0x74u8, 0x72, 0x75, 0x65]
    } else {
        seq![0x66u8, 0x61, 0x6c, 0x73, 0x65]
    }
}

pub open spec fn parse_bool(v: Seq<u8>) -> Option<bool> {
    if v == bool_bytes(true) {
        Some(true)
    } else if v == bool_bytes(false) {
        Some(false)
    } else {
        None
    }
}

pub open spec fn is_prefix(p: Seq<u8>, s: Seq<u8>) -> bool {
    p.len() <= s.len() && s.take(p.len() as int) == p
}

/// What has been read of a query so far.  A header pair or a rule whose first
/// part has come and whose second has not yet waits in `pend_name` or `pend_find`.
pub struct Acc {
    pub no_remove_host: bool,
    pub host_rewrite: bool,
    pub dest: Option<Seq<char>>,
    pub append: Seq<(Seq<char>, Seq<char>)>,
    pub pend_name: Option<Seq<char>>,
    pub drop: Seq<Seq<char>>,
    pub rules: Seq<(Seq<char>, Seq<char>)>,
    pub pend_find: Option<Seq<char>>,
}

pub open spec fn acc_init() -> Acc {
    Acc {
        no_remove_host: false,
        host_rewrite: true,
        dest: None,
        append: Seq::empty(),
        pend_name: None,
        drop: Seq::empty(),
        rules: Seq::empty(),
        pend_find: None,
    }
}

/// Reads one `key=value` pair, both already unescaped.  Scalars: the last
/// one given wins.  Array elements: each must come with the next index, from
/// 0, and a pair's or rule's two parts in order; any other indexed key of an
/// array field is refused.  Keys of no field are ignored.
pub open spec fn step(acc: Acc, k: Seq<u8>, v: Seq<u8>) -> Option<Acc> {
    if !valid_utf8(v) {
        None
    } else {
        let s = decode_utf8(v);
        if k == key_default() {
            match parse_bool(v) {
                Some(b) => Some(Acc { no_remove_host: b, ..acc }),
                None => None,
            }
        } else if k == key_host_rewrite() {
            match parse_bool(v) {
                Some(b) => Some(Acc { host_rewrite: b, ..acc }),
                None => None,
            }
        } else if k == key_dest() {
            Some(Acc { dest: Some(s), ..acc })
        } else if acc.pend_name is None && k == key_append_name(acc.append.len()) {
            Some(Acc { pend_name: Some(s), ..acc })
        } else if acc.pend_name is Some && k == key_append_value(acc.append.len()) {
            Some(Acc { append: acc.append.push((acc.pend_name->0, s)), pend_name: None, ..acc })
        } else if k == key_drop(acc.drop.len()) {
            Some(Acc { drop: acc.drop.push(s), ..acc })
        } else if acc.pend_find is None && k == key_find(acc.rules.len()) {
            if pattern_compiles(s) {
                Some(Acc { pend_find: Some(s), ..acc })
            } else {
                None
            }
        } else if acc.pend_find is Some && k == key_replace(acc.rules.len()) {
            Some(Acc { rules: acc.rules.push((acc.pend_find->0, s)), pend_find: None, ..acc })
        } else if is_prefix(prefix_append(), k) || is_prefix(prefix_drop(), k) || is_prefix(
            prefix_rule(),
            k,
        ) {
            None
        } else {
            Some(acc)
        }
    }
}

fn same_bytes(a: &[u8], b: &[u8]) -> (r: bool)
    ensures
        r == (a@ == b@),
{
    if a.len() != b.len() {
        return false;
    }
    let mut i: usize = 0;
    while i < a.len()
        invariant
            a@.len() == b@.len(),
            i <= a@.len(),
            forall|j: int| 0 <= j < i ==> a@[j] == b@[j],
        decreases a@.len() - i,
    {
        if a[i] != b[i] {
            return false;
        }
        i = i + 1;
    }
    assert(a@ =~= b@);
    true
}

fn starts_with(p: &[u8], s: &[u8]) -> (r: bool)
    ensures
        r == is_prefix(p@, s@),
{
    if p.len() > s.len() {
        return false;
    }
    let mut i: usize = 0;
    while i < p.len()
        invariant
            p@.len() <= s@.len(),
            i <= p@.len(),
            forall|j: int| 0 <= j < i ==> p@[j] == s@[j],
        decreases p@.len() - i,
    {
        if p[i] != s[i] {
            assert(s@.take(p@.len() as int)[i as int] != p@[i as int]);
            return false;
        }
        i = i + 1;
    }
    assert(s@.take(p@.len() as int) =~= p@);
    true
}

fn exec_prefix_append() -> (r: Vec<u8>)
    ensures
        r@ == prefix_append(),
{
    let r = vec![0x61u8, 0x70, 0x70, 0x65, 0x6e, 0x64, 0x5b];
    assert(r@ =~= prefix_append());
    r
}

fn exec_prefix_drop() -> (r: Vec<u8>)
    ensures
        r@ == prefix_drop(),
{
    let r = vec![0x64u8, 0x72, 0x6f, 0x70, 0x5b];
    assert(r@ =~= prefix_drop());
    r
}

fn exec_prefix_rule() -> (r: Vec<u8>)
    ensures
        r@ == prefix_rule(),
{
    let r = vec![0x63u8, 0x75, 0x73, 0x74, 0x6f, 0x6d, 0x5f, 0x72, 0x65, 0x77, 0x72, 0x69, 0x74, 0x65, 0x5b];
    assert(r@ =~= prefix_rule());
    r
}

fn exec_key_default() -> (r: Vec<u8>)
    ensures
        r@ == key_default(),
{
    let r = vec![0x64u8, 0x65, 0x66, 0x61, 0x75, 0x6c, 0x74];
    assert(r@ =~= key_default());
    r
}

fn exec_key_host_rewrite() -> (r: Vec<u8>)
    ensures
        r@ == key_host_rewrite(),
{
    let r = vec![0x68u8, 0x6f, 0x73, 0x74, 0x5f, 0x72, 0x65, 0x77, 0x72, 0x69, 0x74, 0x65];
    assert(r@ =~= key_host_rewrite());
    r
}

fn exec_key_dest() -> (r: Vec<u8>)
    ensures
        r@ == key_dest(),
{
    let r = vec![0x64u8, 0x65, 0x73, 0x74];
    assert(r@ =~= key_dest());
    r
}

fn exec_bool_bytes(b: bool) -> (r: Vec<u8>)
    ensures
        r@ == bool_bytes(b),
{
    let r = if b {
        vec![0x74u8, 0x72, 0x75, 0x65]
    } else {
        vec![0x66u8, 0x61, 0x6c, 0x73, 0x65]
    };
    assert(r@ =~= bool_bytes(b));
    r
}

fn exec_parse_bool(v: &[u8]) -> (r: Option<bool>)
    ensures
        r == parse_bool(v@),
{
    if same_bytes(v, exec_bool_bytes(true).as_slice()) {
        Some(true)
    } else if same_bytes(v, exec_bool_bytes(false).as_slice()) {
        Some(false)
    } else {
        None
    }
}

fn push_all(out: &mut Vec<u8>, b: &[u8])
    ensures
        final(out)@ == old(out)@ + b@,
{
    let mut i: usize = 0;
    let ghost start = out@;
    assert(start + b@.take(0) =~= start);
    while i < b.len()
        invariant
            i <= b@.len(),
            out@ == start + b@.take(i as int),
        decreases b@.len() - i,
    {
        out.push(b[i]);
        assert(start + b@.take(i + 1) =~= start + b@.take(i as int) + seq![b@[i as int]]);
        i = i + 1;
    }
    assert(b@.take(i as int) =~= b@);
}

/// The key for element `i` of the array field named by `which`, part `part`:
/// `which` 0 is `append` (`part` 0 or 1), 1 is `drop`, 2 is `custom_rewrite`
/// (`part` 0 for `find`, 1 for `replace`).
pub open spec fn indexed_key(which: u8, i: nat, part: u8) -> Seq<u8> {
    if which == 0 {
        if part == 0 {
            key_append_name(i)
        } else {
            key_append_value(i)
        }
    } else if which == 1 {
        key_drop(i)
    } else if part == 0 {
        key_find(i)
    } else {
        key_replace(i)
    }
}

fn exec_indexed_key(which: u8, i: usize, part: u8) -> (r: Vec<u8>)
    requires
        which <= 2,
        part <= 1,
    ensures
        r@ == indexed_key(which, i as nat, part),
{
    let mut out = if which == 0 {
        exec_prefix_append()
    } else if which == 1 {
        exec_prefix_drop()
    } else {
        exec_prefix_rule()
    };
    let ghost pre = out@;
    push_dec(&mut out, i);
    let ghost mid = out@;
    if which == 0 {
        push_all(&mut out, vec![0x5du8, 0x5b, 0x30u8 + part, 0x5d].as_slice());
        assert(out@ =~= pre + dec(i as nat) + suffix_tuple(part));
    } else if which == 1 {
        out.push(0x5du8);
        assert(out@ =~= pre + dec(i as nat) + suffix_close());
    } else if part == 0 {
        push_all(&mut out, vec![0x5du8, 0x5b, 0x66, 0x69, 0x6e, 0x64, 0x5d].as_slice());
        assert(out@ =~= pre + dec(i as nat) + suffix_find());
    } else {
        push_all(&mut out, vec![0x5du8, 0x5b, 0x72, 0x65, 0x70, 0x6c, 0x61, 0x63, 0x65, 0x5d].as_slice());
        assert(out@ =~= pre + dec(i as nat) + suffix_replace());
    }
    out
}

/// Relies on `String::from_utf8`: it accepts exactly the valid UTF-8 byte
/// strings, and the string then holds the characters they encode.
#[verifier::external_body]
fn utf8_string(b: Vec<u8>) -> (r: Option<String>)
    ensures
        r is Some <==> valid_utf8(b@),
        r matches Some(s) ==> s@ == decode_utf8(b@),
{
    String::from_utf8(b).ok()
}

pub open spec fn opt_view(o: Option<String>) -> Option<Seq<char>> {
    match o {
        Some(s) => Some(s@),
        None => None,
    }
}

/// The state of a decoding in progress: `Acc` with live values.
struct DecodeAcc {
    no_remove_host: bool,
    host_rewrite: bool,
    dest: Option<String>,
    append: Vec<(String, String)>,
    pend_name: Option<String>,
    drop: Vec<String>,
    rules: Vec<RewriteRules>,
    pend_find: Option<RegexWrapper>,
}

impl DecodeAcc {
    spec fn view_acc(&self) -> Acc {
        Acc {
            no_remove_host: self.no_remove_host,
            host_rewrite: self.host_rewrite,
            dest: opt_view(self.dest),
            append: crate::directive::pairs_view(self.append@),
            pend_name: opt_view(self.pend_name),
            drop: crate::directive::strings_view(self.drop@),
            rules: rules_view(self.rules@),
            pend_find: match self.pend_find {
                Some(w) => Some(w.pattern_view()),
                None => None,
            },
        }
    }

    spec fn wf(&self) -> bool {
        &&& rules_wf(self.rules@)
        &&& self.pend_find matches Some(w) ==> w.wf()
    }

    fn new() -> (r: DecodeAcc)
        ensures
            r.view_acc() == acc_init(),
            r.wf(),
    {
        let r = DecodeAcc {
            no_remove_host: false,
            host_rewrite: crate::directive::_default_true(),
            dest: None,
            append: Vec::new(),
            pend_name: None,
            drop: Vec::new(),
            rules: Vec::new(),
            pend_find: None,
        };
        assert(r.view_acc().append =~= Seq::<(Seq<char>, Seq<char>)>::empty());
        assert(r.view_acc().drop =~= Seq::<Seq<char>>::empty());
        assert(r.view_acc().rules =~= Seq::<(Seq<char>, Seq<char>)>::empty());
        r
    }

    /// Reads one unescaped pair; `false` where `step` refuses it.
    fn step_exec(&mut self, k: &[u8], v: Vec<u8>) -> (ok: bool)
        requires
            old(self).wf(),
        ensures
            final(self).wf(),
            ok ==> step(old(self).view_acc(), k@, v@) == Some(final(self).view_acc()),
            !ok ==> step(old(self).view_acc(), k@, v@) is None,
    {
        let ghost acc = self.view_acc();
        let b = exec_parse_bool(v.as_slice());
        let s = match utf8_string(v) {
            Some(s) => s,
            None => return false,
        };
        if same_bytes(k, exec_key_default().as_slice()) {
            return match b {
                Some(x) => {
                    self.no_remove_host = x;
                    true
                },
                None => false,
            };
        }
        if same_bytes(k, exec_key_host_rewrite().as_slice()) {
            return match b {
                Some(x) => {
                    self.host_rewrite = x;
                    true
                },
                None => false,
            };
        }
        if same_bytes(k, exec_key_dest().as_slice()) {
            self.dest = Some(s);
            return true;
        }
        if self.pend_name.is_none() && same_bytes(
            k,
            exec_indexed_key(0, self.append.len(), 0).as_slice(),
        ) {
            self.pend_name = Some(s);
            return true;
        }
        if self.pend_name.is_some() && same_bytes(
            k,
            exec_indexed_key(0, self.append.len(), 1).as_slice(),
        ) {
            let name = self.pend_name.take().unwrap();
            self.append.push((name, s));
            assert(self.view_acc().append =~= acc.append.push((acc.pend_name->0, decode_utf8(v@))));
            return true;
        }
        if same_bytes(k, exec_indexed_key(1, self.drop.len(), 0).as_slice()) {
            self.drop.push(s);
            assert(self.view_acc().drop =~= acc.drop.push(decode_utf8(v@)));
            return true;
        }
        if self.pend_find.is_none() && same_bytes(
            k,
            exec_indexed_key(2, self.rules.len(), 0).as_slice(),
        ) {
            return match RegexWrapper::new(s.as_str()) {
                Some(w) => {
                    self.pend_find = Some(w);
                    true
                },
                None => false,
            };
        }
        if self.pend_find.is_some() && same_bytes(
            k,
            exec_indexed_key(2, self.rules.len(), 1).as_slice(),
        ) {
            let find = self.pend_find.take().unwrap();
            self.rules.push(RewriteRules { find, replace: s });
            assert(self.view_acc().rules =~= acc.rules.push((acc.pend_find->0, decode_utf8(v@))));
            assert(rules_wf(self.rules@)) by {
                assert forall|i: int| 0 <= i < self.rules@.len() implies (
                #[trigger] self.rules@[i]).find.wf() by {
                    if i < self.rules@.len() - 1 {
                        assert(self.rules@[i] == old(self).rules@[i]);
                    }
                }
            }
            return true;
        }
        if starts_with(exec_prefix_append().as_slice(), k) || starts_with(
            exec_prefix_drop().as_slice(),
            k,
        ) || starts_with(exec_prefix_rule().as_slice(), k) {
            return false;
        }
        true
    }

    /// The directive, once every pair has been read.
    fn finish(self) -> (r: Option<RevProxyRequest>)
        requires
            self.wf(),
        ensures
            match r {
                Some(d) => finish_spec(self.view_acc()) == Some(d@) && d.wf()
                    && d.local_addr@ == Seq::<char>::empty(),
                None => finish_spec(self.view_acc()) is None,
            },
    {
        if self.pend_name.is_some() || self.pend_find.is_some() {
            return None;
        }
        let dest = match &self.dest {
            Some(t) => match UriWrapper::try_from(t.as_str()) {
                Some(u) => u,
                None => return None,
            },
            None => return None,
        };
        Some(
            RevProxyRequest {
                no_remove_host: self.no_remove_host,
                append: self.append,
                drop: self.drop,
                host_rewrite: self.host_rewrite,
                custom_rewrite: self.rules,
                local_addr: String::new(),
                dest,
            },
        )
    }
}

/// The directive that a finished reading stands for: a destination that is an
/// absolute URI, and no pair or rule left half given.
pub open spec fn finish_spec(acc: Acc) -> Option<DirectiveView> {
    match acc.dest {
        Some(t) => match uri_normalized(t) {
            Some(u) => if acc.pend_name is None && acc.pend_find is None {
                Some(
                    DirectiveView {
                        no_remove_host: acc.no_remove_host,
                        append: acc.append,
                        drop: acc.drop,
                        host_rewrite: acc.host_rewrite,
                        rules: acc.rules,
                        dest: u,
                    },
                )
            } else {
                None
            },
            None => None,
        },
        None => None,
    }
}

/// One piece of the query, between two `&`: an empty one is skipped;
/// otherwise it is cut at its first `=` and both sides are unescaped.
pub open spec fn seg_step(acc: Acc, seg: Seq<u8>) -> Option<Acc> {
    if seg.len() == 0 {
        Some(acc)
    } else {
        let (k, v) = split_eq(seg);
        match (pct_decode(k), pct_decode(v)) {
            (Some(kd), Some(vd)) => step(acc, kd, vd),
            _ => None,
        }
    }
}

pub open spec fn run_segs(acc: Acc, segs: Seq<Seq<u8>>) -> Option<Acc>
    decreases segs.len(),
{
    if segs.len() == 0 {
        Some(acc)
    } else {
        match run_segs(acc, segs.drop_last()) {
            Some(a) => seg_step(a, segs.last()),
            None => None,
        }
    }
}

/// The directive that the query bytes `q` stand for, if any.
pub open spec fn decode_bytes(q: Seq<u8>) -> Option<DirectiveView> {
    match run_segs(acc_init(), split_amp(q)) {
        Some(acc) => finish_spec(acc),
        None => None,
    }
}

/// The directive that the query text `q` stands for, if any.
pub open spec fn decode_text(q: Seq<char>) -> Option<DirectiveView> {
    decode_bytes(encode_utf8(q))
}

proof fn lemma_run_segs_none(acc: Acc, segs: Seq<Seq<u8>>, i: int)
    requires
        0 <= i <= segs.len(),
        run_segs(acc, segs.take(i)) is None,
    ensures
        run_segs(acc, segs) is None,
    decreases segs.len() - i,
{
    if i < segs.len() {
        assert(segs.take(i + 1).drop_last() =~= segs.take(i));
        lemma_run_segs_none(acc, segs, i + 1);
    } else {
        assert(segs.take(i) =~= segs);
    }
}

/// Reads a directive from a query string (without the leading `?`).  The
/// caller authority of the result is empty; it is not part of the query.
pub fn decode_query(q: &str) -> (r: Option<RevProxyRequest>)
    ensures
        match r {
            Some(d) => decode_text(q@) == Some(d@) && d.wf() && d.local_addr@ == Seq::<
                char,
            >::empty(),
            None => decode_text(q@) is None,
        },
{
    let bytes = q.as_bytes();
    let segs = split_amp_exec(bytes);
    let ghost all = split_amp(bytes@);
    assert(segs@.len() == all.len());
    assert(bytes@ == encode_utf8(q@));
    let mut acc = DecodeAcc::new();
    let mut i: usize = 0;
    assert(all.take(0) =~= Seq::<Seq<u8>>::empty());
    while i < segs.len()
        invariant
            i <= segs@.len(),
            all == split_amp(bytes@),
            bytes@ == encode_utf8(q@),
            segs@.map_values(|v: Vec<u8>| v@) == all,
            acc.wf(),
            run_segs(acc_init(), all.take(i as int)) == Some(acc.view_acc()),
        decreases segs@.len() - i,
    {
        assert(all.take(i + 1).drop_last() =~= all.take(i as int));
        assert(segs@[i as int]@ == all[i as int]);
        let seg = &segs[i];
        let ghost a0 = acc.view_acc();
        assert(all.take(i + 1).last() == all[i as int]);
        if seg.len() > 0 {
            let (k, v) = split_eq_exec(seg.as_slice());
            let kd = pct_decode_exec(k.as_slice());
            let vd = pct_decode_exec(v.as_slice());
            match (kd, vd) {
                (Some(kd), Some(vd)) => {
                    if !acc.step_exec(kd.as_slice(), vd) {
                        assert(seg_step(a0, all[i as int]) is None);
                        proof {
                            lemma_run_segs_none(acc_init(), all, i + 1);
                            assert(bytes@ == encode_utf8(q@));
                            assert(decode_bytes(bytes@) is None);
                        }
                        return None;
                    }
                },
                _ => {
                    assert(seg_step(a0, all[i as int]) is None);
                    proof {
                        lemma_run_segs_none(acc_init(), all, i + 1);
                        assert(bytes@ == encode_utf8(q@));
                        assert(decode_bytes(bytes@) is None);
                    }
                    return None;
                },
            }
        }
        i = i + 1;
    }
    assert(all.take(i as int) =~= all);
    acc.finish()
}

/// One pair as it stands in a query: `key=value`, both escaped.
pub open spec fn enc_seg(p: (Seq<u8>, Seq<u8>)) -> Seq<u8> {
    pct_encode(p.0) + seq![0x3du8] + pct_encode(p.1)
}

/// Pairs written as a query: escaped `key=value` pieces joined by `&`.
pub open spec fn wire_of(ps: Seq<(Seq<u8>, Seq<u8>)>) -> Seq<u8> {
    join_amp(ps.map_values(|p: (Seq<u8>, Seq<u8>)| enc_seg(p)))
}

pub open spec fn append_pairs(a: Seq<(Seq<char>, Seq<char>)>) -> Seq<(Seq<u8>, Seq<u8>)>
    decreases a.len(),
{
    if a.len() == 0 {
        Seq::empty()
    } else {
        let i = (a.len() - 1) as nat;
        append_pairs(a.drop_last()) + seq![
            (key_append_name(i), encode_utf8(a.last().0)),
            (key_append_value(i), encode_utf8(a.last().1)),
        ]
    }
}

pub open spec fn drop_pairs(a: Seq<Seq<char>>) -> Seq<(Seq<u8>, Seq<u8>)>
    decreases a.len(),
{
    if a.len() == 0 {
        Seq::empty()
    } else {
        drop_pairs(a.drop_last()).push((key_drop((a.len() - 1) as nat), encode_utf8(a.last())))
    }
}

pub open spec fn rule_pairs(a: Seq<(Seq<char>, Seq<char>)>) -> Seq<(Seq<u8>, Seq<u8>)>
    decreases a.len(),
{
    if a.len() == 0 {
        Seq::empty()
    } else {
        let i = (a.len() - 1) as nat;
        rule_pairs(a.drop_last()) + seq![
            (key_find(i), encode_utf8(a.last().0)),
            (key_replace(i), encode_utf8(a.last().1)),
        ]
    }
}

/// The pairs a directive is written as, in field order: `default`, the
/// `append` pairs, the `drop` names, `host_rewrite`, the `custom_rewrite`
/// rules, and last `dest`.
pub open spec fn directive_pairs(d: DirectiveView) -> Seq<(Seq<u8>, Seq<u8>)> {
    seq![(key_default(), bool_bytes(d.no_remove_host))] + append_pairs(d.append) + drop_pairs(
        d.drop,
    ) + seq![(key_host_rewrite(), bool_bytes(d.host_rewrite))] + rule_pairs(d.rules) + seq![
        (key_dest(), encode_utf8(d.dest)),
    ]
}

pub open spec fn encode_bytes(d: DirectiveView) -> Seq<u8> {
    wire_of(directive_pairs(d))
}

/// The query text of a directive (every byte of it is ASCII).
pub open spec fn encode_text(d: DirectiveView) -> Seq<char> {
    encode_bytes(d).map_values(|b: u8| b as char)
}

proof fn lemma_wire_push(ps: Seq<(Seq<u8>, Seq<u8>)>, p: (Seq<u8>, Seq<u8>))
    requires
        ps.len() >= 1,
    ensures
        wire_of(ps.push(p)) == wire_of(ps) + seq![0x26u8] + enc_seg(p),
{
    let f = |p: (Seq<u8>, Seq<u8>)| enc_seg(p);
    assert(ps.push(p).map_values(f).drop_last() =~= ps.map_values(f));
}

/// Appends `&key=value`, both escaped.
fn emit(out: &mut Vec<u8>, k: &[u8], v: &[u8])
    ensures
        final(out)@ == old(out)@ + seq![0x26u8] + enc_seg((k@, v@)),
{
    out.push(0x26u8);
    push_pct(out, k);
    out.push(0x3du8);
    push_pct(out, v);
    assert(final(out)@ =~= old(out)@ + seq![0x26u8] + enc_seg((k@, v@)));
}

/// Writes a directive as a query string (without the leading `?`); the caller
/// authority is left out.
pub fn encode_query(d: &RevProxyRequest) -> (r: String)
    ensures
        r@ == encode_text(d@),
{
    let ghost v = d@;
    let mut out: Vec<u8> = Vec::new();
    push_pct(&mut out, exec_key_default().as_slice());
    out.push(0x3du8);
    push_pct(&mut out, exec_bool_bytes(d.no_remove_host).as_slice());
    let ghost ps: Seq<(Seq<u8>, Seq<u8>)> = seq![(key_default(), bool_bytes(v.no_remove_host))];
    assert(out@ =~= wire_of(ps)) by {
        assert(ps.map_values(|p: (Seq<u8>, Seq<u8>)| enc_seg(p)) =~= seq![enc_seg(ps[0])]);
    }
    let ghost head = ps;
    let mut i: usize = 0;
    assert(v.append.take(0) =~= Seq::<(Seq<char>, Seq<char>)>::empty());
    assert(head + append_pairs(v.append.take(0)) =~= head);
    while i < d.append.len()
        invariant
            v == d@,
            i <= v.append.len(),
            out@ == wire_of(head + append_pairs(v.append.take(i as int))),
            head.len() == 1,
        decreases v.append.len() - i,
    {
        let pair = &d.append[i];
        let ghost before = head + append_pairs(v.append.take(i as int));
        let ghost pa = (key_append_name(i as nat), encode_utf8(pair.0@));
        let ghost pb = (key_append_value(i as nat), encode_utf8(pair.1@));
        emit(&mut out, exec_indexed_key(0, i, 0).as_slice(), pair.0.as_str().as_bytes());
        proof {
            lemma_wire_push(before, pa);
        }
        emit(&mut out, exec_indexed_key(0, i, 1).as_slice(), pair.1.as_str().as_bytes());
        proof {
            lemma_wire_push(before.push(pa), pb);
            assert(v.append.take(i + 1).drop_last() =~= v.append.take(i as int));
            assert(v.append.take(i + 1).last() == (pair.0@, pair.1@));
            assert(head + append_pairs(v.append.take(i + 1)) =~= before.push(pa).push(pb));
        }
        i = i + 1;
    }
    assert(v.append.take(i as int) =~= v.append);
    let ghost head = head + append_pairs(v.append);
    let mut i: usize = 0;
    assert(v.drop.take(0) =~= Seq::<Seq<char>>::empty());
    assert(head + drop_pairs(v.drop.take(0)) =~= head);
    while i < d.drop.len()
        invariant
            v == d@,
            i <= v.drop.len(),
            out@ == wire_of(head + drop_pairs(v.drop.take(i as int))),
            head.len() >= 1,
        decreases v.drop.len() - i,
    {
        let name = &d.drop[i];
        let ghost before = head + drop_pairs(v.drop.take(i as int));
        let ghost pa = (key_drop(i as nat), encode_utf8(name@));
        emit(&mut out, exec_indexed_key(1, i, 0).as_slice(), name.as_str().as_bytes());
        proof {
            lemma_wire_push(before, pa);
            assert(v.drop.take(i + 1).drop_last() =~= v.drop.take(i as int));
            assert(head + drop_pairs(v.drop.take(i + 1)) =~= before.push(pa));
        }
        i = i + 1;
    }
    assert(v.drop.take(i as int) =~= v.drop);
    let ghost head = head + drop_pairs(v.drop);
    let ghost ph = (key_host_rewrite(), bool_bytes(v.host_rewrite));
    emit(&mut out, exec_key_host_rewrite().as_slice(), exec_bool_bytes(d.host_rewrite).as_slice());
    proof {
        lemma_wire_push(head, ph);
    }
    let ghost head = head.push(ph);
    let mut i: usize = 0;
    assert(v.rules.take(0) =~= Seq::<(Seq<char>, Seq<char>)>::empty());
    assert(head + rule_pairs(v.rules.take(0)) =~= head);
    while i < d.custom_rewrite.len()
        invariant
            v == d@,
            i <= v.rules.len(),
            out@ == wire_of(head + rule_pairs(v.rules.take(i as int))),
            head.len() >= 1,
        decreases v.rules.len() - i,
    {
        let rule = &d.custom_rewrite[i];
        let ghost before = head + rule_pairs(v.rules.take(i as int));
        let ghost pa = (key_find(i as nat), encode_utf8(rule.find.pattern_view()));
        let ghost pb = (key_replace(i as nat), encode_utf8(rule.replace@));
        emit(&mut out, exec_indexed_key(2, i, 0).as_slice(), rule.find.as_str().as_bytes());
        proof {
            lemma_wire_push(before, pa);
        }
        emit(&mut out, exec_indexed_key(2, i, 1).as_slice(), rule.replace.as_str().as_bytes());
        proof {
            lemma_wire_push(before.push(pa), pb);
            assert(v.rules.take(i + 1).drop_last() =~= v.rules.take(i as int));
            assert(v.rules.take(i + 1).last() == rule.view_pair());
            assert(head + rule_pairs(v.rules.take(i + 1)) =~= before.push(pa).push(pb));
        }
        i = i + 1;
    }
    assert(v.rules.take(i as int) =~= v.rules);
    let ghost head = head + rule_pairs(v.rules);
    let ghost pd = (key_dest(), encode_utf8(v.dest));
    emit(&mut out, exec_key_dest().as_slice(), d.dest.as_str().as_bytes());
    proof {
        lemma_wire_push(head, pd);
        assert(head.push(pd) =~= directive_pairs(v));
    }
    crate::text::ascii_string(out.as_slice())
}

pub open spec fn all_ascii(s: Seq<u8>) -> bool {
    forall|i: int| 0 <= i < s.len() ==> #[trigger] s[i] < 128
}

proof fn lemma_pct_ascii(a: Seq<u8>)
    ensures
        all_ascii(pct_encode(a)),
    decreases a.len(),
{
    if a.len() > 0 {
        lemma_pct_ascii(a.drop_last());
        let x = a.last();
        assert(x / 16 < 16 && x % 16 < 16);
        let e = pct_encode(a);
        let e0 = pct_encode(a.drop_last());
        assert forall|i: int| 0 <= i < e.len() implies #[trigger] e[i] < 128 by {
            if i >= e0.len() {
                assert(e[i] == pct_byte(x)[i - e0.len()]);
            } else {
                assert(e[i] == e0[i]);
            }
        }
    }
}

proof fn lemma_join_ascii(segs: Seq<Seq<u8>>)
    requires
        forall|i: int| 0 <= i < segs.len() ==> all_ascii(#[trigger] segs[i]),
    ensures
        all_ascii(join_amp(segs)),
    decreases segs.len(),
{
    if segs.len() > 1 {
        lemma_join_ascii(segs.drop_last());
        let j = join_amp(segs);
        let j0 = join_amp(segs.drop_last());
        assert(all_ascii(segs[segs.len() - 1]));
        assert forall|i: int| 0 <= i < j.len() implies #[trigger] j[i] < 128 by {
            if i < j0.len() {
                assert(j[i] == j0[i]);
            } else if i == j0.len() {
                assert(j[i] == 0x26u8);
            } else {
                assert(j[i] == segs.last()[i - j0.len() - 1]);
            }
        }
    } else if segs.len() == 1 {
        assert(all_ascii(segs[0]));
    }
}

proof fn lemma_seg_facts(p: (Seq<u8>, Seq<u8>))
    ensures
        all_ascii(enc_seg(p)),
        no_byte(enc_seg(p), 0x26u8),
        enc_seg(p).len() > 0,
        split_eq(enc_seg(p)) == (pct_encode(p.0), pct_encode(p.1)),
{
    lemma_pct_ascii(p.0);
    lemma_pct_ascii(p.1);
    lemma_pct_plain(p.0);
    lemma_pct_plain(p.1);
    let e = enc_seg(p);
    let k = pct_encode(p.0);
    assert forall|i: int| 0 <= i < e.len() implies #[trigger] e[i] < 128 && e[i] != 0x26u8 by {
        if i < k.len() {
            assert(e[i] == k[i]);
        } else if i > k.len() {
            assert(e[i] == pct_encode(p.1)[i - k.len() - 1]);
        }
    }
    assert(no_byte(k, 0x3du8));
    lemma_split_eq_pair(k, pct_encode(p.1));
}

/// The query text is ASCII, so its UTF-8 bytes are the wire bytes themselves.
proof fn lemma_text_bytes(d: DirectiveView)
    ensures
        encode_utf8(encode_text(d)) == encode_bytes(d),
{
    let ps = directive_pairs(d);
    let segs = ps.map_values(|p: (Seq<u8>, Seq<u8>)| enc_seg(p));
    assert forall|i: int| 0 <= i < segs.len() implies all_ascii(#[trigger] segs[i]) by {
        lemma_seg_facts(ps[i]);
    }
    lemma_join_ascii(segs);
    let b = encode_bytes(d);
    let t = encode_text(d);
    assert(vstd::utf8::is_ascii_chars(t)) by {
        assert forall|i: int| 0 <= i < t.len() implies '\0' <= #[trigger] t[i] <= '\u{7f}' by {
            assert(b[i] < 128);
        }
    }
    vstd::utf8::is_ascii_chars_encode_utf8(t);
    assert forall|i: int| 0 <= i < b.len() implies #[trigger] encode_utf8(t)[i] == b[i] by {
        assert(t[i] as u8 == encode_utf8(t)[i]);
        assert(b[i] < 128);
    }
    assert(encode_utf8(t) =~= b);
}

pub open spec fn run_pairs(acc: Acc, ps: Seq<(Seq<u8>, Seq<u8>)>) -> Option<Acc>
    decreases ps.len(),
{
    if ps.len() == 0 {
        Some(acc)
    } else {
        match run_pairs(acc, ps.drop_last()) {
            Some(a) => step(a, ps.last().0, ps.last().1),
            None => None,
        }
    }
}

proof fn lemma_segs_pairs(acc: Acc, ps: Seq<(Seq<u8>, Seq<u8>)>)
    ensures
        run_segs(acc, ps.map_values(|p: (Seq<u8>, Seq<u8>)| enc_seg(p))) == run_pairs(acc, ps),
    decreases ps.len(),
{
    let f = |p: (Seq<u8>, Seq<u8>)| enc_seg(p);
    if ps.len() > 0 {
        assert(ps.map_values(f).drop_last() =~= ps.drop_last().map_values(f));
        lemma_segs_pairs(acc, ps.drop_last());
        let p = ps.last();
        lemma_seg_facts(p);
        lemma_pct_round_trip(p.0);
        lemma_pct_round_trip(p.1);
        match run_pairs(acc, ps.drop_last()) {
            Some(a) => {
                assert(seg_step(a, enc_seg(p)) == step(a, p.0, p.1));
            },
            None => {},
        }
    }
}

proof fn lemma_run_pairs_concat(acc: Acc, a: Seq<(Seq<u8>, Seq<u8>)>, b: Seq<(Seq<u8>, Seq<u8>)>)
    ensures
        run_pairs(acc, a + b) == match run_pairs(acc, a) {
            Some(m) => run_pairs(m, b),
            None => None,
        },
    decreases b.len(),
{
    if b.len() == 0 {
        assert(a + b =~= a);
    } else {
        assert((a + b).drop_last() =~= a + b.drop_last());
        lemma_run_pairs_concat(acc, a, b.drop_last());
    }
}

proof fn lemma_bool_utf8(b: bool)
    ensures
        valid_utf8(bool_bytes(b)),
{
    let c = if b {
        seq!['t', 'r', 'u', 'e']
    } else {
        seq!['f', 'a', 'l', 's', 'e']
    };
    assert(vstd::utf8::is_ascii_chars(c));
    vstd::utf8::is_ascii_chars_encode_utf8(c);
    assert(encode_utf8(c) =~= bool_bytes(b)) by {
        assert forall|i: int| 0 <= i < c.len() implies encode_utf8(c)[i] == bool_bytes(b)[i] by {
            assert(c[i] as u8 == encode_utf8(c)[i]);
        }
    }
    lemma_utf8(c);
}

proof fn lemma_run_two(acc: Acc, p: (Seq<u8>, Seq<u8>), q: (Seq<u8>, Seq<u8>))
    ensures
        run_pairs(acc, seq![p, q]) == match step(acc, p.0, p.1) {
            Some(m) => step(m, q.0, q.1),
            None => None,
        },
{
    reveal_with_fuel(run_pairs, 3);
    assert(seq![p, q].drop_last() =~= seq![p]);
    assert(seq![p].drop_last() =~= Seq::<(Seq<u8>, Seq<u8>)>::empty());
}

proof fn lemma_run_one(acc: Acc, p: (Seq<u8>, Seq<u8>))
    ensures
        run_pairs(acc, seq![p]) == step(acc, p.0, p.1),
{
    reveal_with_fuel(run_pairs, 2);
    assert(seq![p].drop_last() =~= Seq::<(Seq<u8>, Seq<u8>)>::empty());
}

proof fn lemma_utf8(s: Seq<char>)
    ensures
        valid_utf8(encode_utf8(s)),
        decode_utf8(encode_utf8(s)) == s,
{
    vstd::utf8::encode_utf8_valid_utf8(s);
    vstd::utf8::encode_utf8_decode_utf8(s);
}

proof fn lemma_run_append(acc: Acc, a: Seq<(Seq<char>, Seq<char>)>)
    requires
        acc.append.len() == 0,
        acc.pend_name is None,
    ensures
        run_pairs(acc, append_pairs(a)) == Some(Acc { append: a, ..acc }),
    decreases a.len(),
{
    if a.len() == 0 {
        assert(acc.append =~= a);
    } else {
        let i = (a.len() - 1) as nat;
        lemma_run_append(acc, a.drop_last());
        let mid = Acc { append: a.drop_last(), ..acc };
        let pa = (key_append_name(i), encode_utf8(a.last().0));
        let pb = (key_append_value(i), encode_utf8(a.last().1));
        lemma_run_pairs_concat(acc, append_pairs(a.drop_last()), seq![pa, pb]);
        lemma_run_two(mid, pa, pb);
        lemma_utf8(a.last().0);
        lemma_utf8(a.last().1);
        assert(pa.0[0] == 0x61u8);
        assert(pb.0[0] == 0x61u8);
        assert(pa.0 != key_default() && pa.0 != key_host_rewrite() && pa.0 != key_dest()) by {
            assert(key_default()[0] != pa.0[0]);
            assert(key_host_rewrite()[0] != pa.0[0]);
            assert(key_dest()[0] != pa.0[0]);
        }
        assert(pb.0 != key_default() && pb.0 != key_host_rewrite() && pb.0 != key_dest()) by {
            assert(key_default()[0] != pb.0[0]);
            assert(key_host_rewrite()[0] != pb.0[0]);
            assert(key_dest()[0] != pb.0[0]);
        }
        let m1 = Acc { pend_name: Some(a.last().0), ..mid };
        assert(step(mid, pa.0, pa.1) == Some(m1));
        assert(a.drop_last().push((a.last().0, a.last().1)) =~= a);
        assert(step(m1, pb.0, pb.1) == Some(Acc { append: a, ..acc }));
    }
}

proof fn lemma_run_drop(acc: Acc, a: Seq<Seq<char>>)
    requires
        acc.drop.len() == 0,
        acc.pend_name is None,
    ensures
        run_pairs(acc, drop_pairs(a)) == Some(Acc { drop: a, ..acc }),
    decreases a.len(),
{
    if a.len() == 0 {
        assert(acc.drop =~= a);
    } else {
        let i = (a.len() - 1) as nat;
        lemma_run_drop(acc, a.drop_last());
        let mid = Acc { drop: a.drop_last(), ..acc };
        let pa = (key_drop(i), encode_utf8(a.last()));
        lemma_run_pairs_concat(acc, drop_pairs(a.drop_last()), seq![pa]);
        assert(drop_pairs(a) =~= drop_pairs(a.drop_last()) + seq![pa]);
        lemma_run_one(mid, pa);
        lemma_utf8(a.last());
        assert(pa.0[0] == 0x64u8 && pa.0[1] == 0x72u8);
        assert(pa.0 != key_default() && pa.0 != key_host_rewrite() && pa.0 != key_dest()) by {
            assert(key_default()[1] != pa.0[1]);
            assert(key_host_rewrite()[0] != pa.0[0]);
            assert(key_dest()[1] != pa.0[1]);
        }
        assert(pa.0 != key_append_name(mid.append.len())) by {
            assert(key_append_name(mid.append.len())[0] != pa.0[0]);
        }
        assert(a.drop_last().push(a.last()) =~= a);
        assert(step(mid, pa.0, pa.1) == Some(Acc { drop: a, ..acc }));
    }
}

proof fn lemma_run_rules(acc: Acc, a: Seq<(Seq<char>, Seq<char>)>)
    requires
        acc.rules.len() == 0,
        acc.pend_name is None,
        acc.pend_find is None,
        forall|i: int| 0 <= i < a.len() ==> pattern_compiles(#[trigger] a[i].0),
    ensures
        run_pairs(acc, rule_pairs(a)) == Some(Acc { rules: a, ..acc }),
    decreases a.len(),
{
    if a.len() == 0 {
        assert(acc.rules =~= a);
    } else {
        let i = (a.len() - 1) as nat;
        assert forall|j: int| 0 <= j < a.drop_last().len() implies pattern_compiles(
            #[trigger] a.drop_last()[j].0,
        ) by {
            assert(a.drop_last()[j] == a[j]);
        }
        lemma_run_rules(acc, a.drop_last());
        let mid = Acc { rules: a.drop_last(), ..acc };
        let pa = (key_find(i), encode_utf8(a.last().0));
        let pb = (key_replace(i), encode_utf8(a.last().1));
        lemma_run_pairs_concat(acc, rule_pairs(a.drop_last()), seq![pa, pb]);
        lemma_run_two(mid, pa, pb);
        lemma_utf8(a.last().0);
        lemma_utf8(a.last().1);
        assert(pattern_compiles(a[a.len() - 1].0));
        assert(pa.0[0] == 0x63u8);
        assert(pb.0[0] == 0x63u8);
        assert(pa.0 != key_default() && pa.0 != key_host_rewrite() && pa.0 != key_dest()) by {
            assert(key_default()[0] != pa.0[0]);
            assert(key_host_rewrite()[0] != pa.0[0]);
            assert(key_dest()[0] != pa.0[0]);
        }
        assert(pb.0 != key_default() && pb.0 != key_host_rewrite() && pb.0 != key_dest()) by {
            assert(key_default()[0] != pb.0[0]);
            assert(key_host_rewrite()[0] != pb.0[0]);
            assert(key_dest()[0] != pb.0[0]);
        }
        assert(pa.0 != key_append_name(mid.append.len())) by {
            assert(key_append_name(mid.append.len())[0] != pa.0[0]);
        }
        assert(pa.0 != key_drop(mid.drop.len())) by {
            assert(key_drop(mid.drop.len())[0] != pa.0[0]);
        }
        assert(pb.0 != key_append_name(mid.append.len())) by {
            assert(key_append_name(mid.append.len())[0] != pb.0[0]);
        }
        assert(pb.0 != key_drop(mid.drop.len())) by {
            assert(key_drop(mid.drop.len())[0] != pb.0[0]);
        }
        let m1 = Acc { pend_find: Some(a.last().0), ..mid };
        assert(step(mid, pa.0, pa.1) == Some(m1));
        assert(a.drop_last().push((a.last().0, a.last().1)) =~= a);
        assert(step(m1, pb.0, pb.1) == Some(Acc { rules: a, ..acc }));
    }
}

/// Reading a directive back from its query gives the directive itself: every
/// field that travels on the wire, arrays in their order.
pub proof fn lemma_round_trip(d: DirectiveView)
    requires
        directive_valid(d),
    ensures
        decode_text(encode_text(d)) == Some(d),
{
    lemma_text_bytes(d);
    let ps = directive_pairs(d);
    let segs = ps.map_values(|p: (Seq<u8>, Seq<u8>)| enc_seg(p));
    assert forall|i: int| 0 <= i < segs.len() implies no_byte(#[trigger] segs[i], 0x26u8) by {
        lemma_seg_facts(ps[i]);
    }
    lemma_split_join(segs);
    lemma_segs_pairs(acc_init(), ps);
    let p0 = (key_default(), bool_bytes(d.no_remove_host));
    let ph = (key_host_rewrite(), bool_bytes(d.host_rewrite));
    let pd = (key_dest(), encode_utf8(d.dest));
    let s0 = acc_init();
    lemma_run_one(s0, p0);
    lemma_bool_utf8(d.no_remove_host);
    let s1 = Acc { no_remove_host: d.no_remove_host, ..s0 };
    assert(run_pairs(s0, seq![p0]) == Some(s1));
    lemma_run_append(s1, d.append);
    let s2 = Acc { append: d.append, ..s1 };
    lemma_run_pairs_concat(s0, seq![p0], append_pairs(d.append));
    lemma_run_drop(s2, d.drop);
    let s3 = Acc { drop: d.drop, ..s2 };
    lemma_run_pairs_concat(s0, seq![p0] + append_pairs(d.append), drop_pairs(d.drop));
    let a3 = seq![p0] + append_pairs(d.append) + drop_pairs(d.drop);
    lemma_run_one(s3, ph);
    lemma_bool_utf8(d.host_rewrite);
    assert(key_default()[2] != key_host_rewrite()[2]);
    let s4 = Acc { host_rewrite: d.host_rewrite, ..s3 };
    assert(run_pairs(s3, seq![ph]) == Some(s4));
    lemma_run_pairs_concat(s0, a3, seq![ph]);
    let a4 = a3 + seq![ph];
    lemma_run_rules(s4, d.rules);
    let s5 = Acc { rules: d.rules, ..s4 };
    lemma_run_pairs_concat(s0, a4, rule_pairs(d.rules));
    let a5 = a4 + rule_pairs(d.rules);
    lemma_run_one(s5, pd);
    lemma_utf8(d.dest);
    assert(key_default()[2] != key_dest()[2]);
    assert(key_host_rewrite()[0] != key_dest()[0]);
    let s6 = Acc { dest: Some(d.dest), ..s5 };
    assert(run_pairs(s5, seq![pd]) == Some(s6));
    lemma_run_pairs_concat(s0, a5, seq![pd]);
    assert(a5 + seq![pd] == ps);
    crate::directive::lemma_canonical_normalized(d.dest);
    assert(finish_spec(s6) == Some(d));
}

/// The round trip for a directive as the library holds it: a well-formed
/// directive, written as a query and read back, gives every wire field again.
pub proof fn lemma_round_trip_request(d: &RevProxyRequest)
    requires
        d.wf(),
    ensures
        decode_text(encode_text(d@)) == Some(d@),
{
    d.lemma_wf_valid();
    lemma_round_trip(d@);
}

/// Whether a piece of a query, `key=value`, sets `dest`.
pub open spec fn seg_names_dest(seg: Seq<u8>) -> bool {
    seg.len() > 0 && pct_decode(split_eq(seg).0) == Some(key_dest())
}

proof fn lemma_run_segs_no_dest(acc: Acc, segs: Seq<Seq<u8>>)
    requires
        acc.dest is None,
        forall|i: int| 0 <= i < segs.len() ==> !seg_names_dest(#[trigger] segs[i]),
    ensures
        run_segs(acc, segs) matches Some(a) ==> a.dest is None,
    decreases segs.len(),
{
    if segs.len() > 0 {
        assert forall|i: int| 0 <= i < segs.drop_last().len() implies !seg_names_dest(
            #[trigger] segs.drop_last()[i],
        ) by {
            assert(segs.drop_last()[i] == segs[i]);
        }
        lemma_run_segs_no_dest(acc, segs.drop_last());
        assert(!seg_names_dest(segs[segs.len() - 1]));
    }
}

/// A query in which no piece sets `dest` is no directive.
pub proof fn lemma_missing_dest(q: Seq<char>)
    requires
        forall|i: int|
            0 <= i < split_amp(encode_utf8(q)).len() ==> !seg_names_dest(
                #[trigger] split_amp(encode_utf8(q))[i],
            ),
    ensures
        decode_text(q) is None,
{
    lemma_run_segs_no_dest(acc_init(), split_amp(encode_utf8(q)));
}

} // verus!
