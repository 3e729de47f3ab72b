use vstd::prelude::*;
use vstd::std_specs::iter::IteratorSpec;

verus! {

broadcast use vstd::string::group_string_axioms;

/// `t` with every occurrence of `pat` replaced by `rep`, matching from the left
/// and never overlapping; an empty `pat` leaves `t` as it is.
pub open spec fn replace_lit(t: Seq<char>, pat: Seq<char>, rep: Seq<char>) -> Seq<char>
    decreases t.len(),
{
    if pat.len() == 0 || t.len() < pat.len() {
        t
    } else if t.subrange(0, pat.len() as int) == pat {
        rep + replace_lit(t.skip(pat.len() as int), pat, rep)
    } else {
        seq![t[0]] + replace_lit(t.skip(1), pat, rep)
    }
}

/// The characters of `s`, one per element.
pub fn chars_of(s: &str) -> (r: Vec<char>)
    ensures
        r@ == s@,
{
    let mut it = s.chars();
    let mut r: Vec<char> = Vec::new();
    loop
        invariant
            r@ + it.remaining() == s@,
            it.obeys_prophetic_iter_laws(),
            it.decrease() is Some,
        ensures
            r@ == s@,
        decreases it.decrease()->0,
    {
        match it.next() {
            Some(c) => {
                r.push(c);
            },
            None => {
                assert(r@ =~= r@ + it.remaining());
                break ;
            },
        }
    }
    r
}

/// Relies on `String::push`: appends one character at the end.
#[verifier::external_body]
pub(crate) fn push_char(s: &mut String, c: char)
    ensures
        final(s)@ == old(s)@.push(c),
{
    s.push(c);
}

/// Whether `pat` occurs in `t` at position `i`.
fn matches_at(t: &Vec<char>, pat: &Vec<char>, i: usize) -> (r: bool)
    requires
        pat@.len() > 0,
        i <= t@.len(),
    ensures
        r == (i + pat@.len() <= t@.len() && t@.subrange(i as int, i + pat@.len()) == pat@),
{
    if pat.len() > t.len() - i {
        return false;
    }
    let mut j: usize = 0;
    while j < pat.len()
        invariant
            0 <= j <= pat@.len(),
            i + pat@.len() <= t@.len(),
            forall|k: int| 0 <= k < j ==> t@[i + k] == pat@[k],
        decreases pat@.len() - j,
    {
        assert(i + j < t.len());
        if t[i + j] != pat[j] {
            assert(t@.subrange(i as int, i + pat@.len())[j as int] != pat@[j as int]);
            return false;
        }
        j = j + 1;
    }
    assert(t@.subrange(i as int, i + pat@.len()) =~= pat@);
    true
}

/// Replaces every occurrence of `pat` in `text` by `rep`, from the left and
/// without overlap, treating `pat` as plain text.  An empty `pat` changes nothing.
pub fn replace_literal(text: &str, pat: &str, rep: &str) -> (r: String)
    ensures
        r@ == replace_lit(text@, pat@, rep@),
{
    let t = chars_of(text);
    let p = chars_of(pat);
    let r = chars_of(rep);
    let mut out = String::new();
    if p.len() == 0 {
        out.append(text);
        return out;
    }
    let mut i: usize = 0;
    assert(text@.skip(0) =~= text@);
    assert(out@ + text@ =~= text@);
    while i < t.len()
        invariant
            p@ == pat@,
            t@ == text@,
            r@ == rep@,
            p@.len() > 0,
            i <= t@.len(),
            replace_lit(text@, pat@, rep@) == out@ + replace_lit(text@.skip(i as int), pat@, rep@),
        decreases t@.len() - i,
    {
        let ghost rest = text@.skip(i as int);
        let ghost old_out = out@;
        if matches_at(&t, &p, i) {
            assert(rest.subrange(0, pat@.len() as int) =~= t@.subrange(i as int, i + pat@.len()));
            assert(rest.skip(pat@.len() as int) =~= text@.skip(i + pat@.len()));
            out.append(rep);
            i = i + p.len();
            assert(out@ + replace_lit(text@.skip(i as int), pat@, rep@) =~= old_out + (rep@
                + replace_lit(text@.skip(i as int), pat@, rep@)));
        } else {
            assert(rest.len() >= pat@.len() ==> rest.subrange(0, pat@.len() as int)
                =~= t@.subrange(i as int, i + pat@.len()));
            assert(rest.skip(1) =~= text@.skip(i + 1));
            assert(rest.len() < pat@.len() ==> seq![rest[0]] + rest.skip(1) =~= rest);
            push_char(&mut out, t[i]);
            i = i + 1;
            assert(out@ + replace_lit(text@.skip(i as int), pat@, rep@) =~= old_out + (seq![
                rest[0]] + replace_lit(text@.skip(i as int), pat@, rep@)));
        }
    }
    assert(text@.skip(i as int) =~= Seq::<char>::empty());
    out
}

/// Each byte as the character with that code.
pub fn ascii_string(b: &[u8]) -> (r: String)
    ensures
        r@ == b@.map_values(|x: u8| x as char),
{
    let mut out = String::new();
    let mut i: usize = 0;
    while i < b.len()
        invariant
            i <= b@.len(),
            out@ == b@.take(i as int).map_values(|x: u8| x as char),
        decreases b@.len() - i,
    {
        push_char(&mut out, b[i] as char);
        assert(b@.take(i + 1).map_values(|x: u8| x as char) =~= b@.take(i as int).map_values(
            |x: u8| x as char,
        ).push(b@[i as int] as char));
        i = i + 1;
    }
    assert(b@.take(i as int) =~= b@);
    out
}

} // verus!
