use vstd::prelude::*;

verus! {

/// Bytes that stand for themselves in a query string: ASCII letters and
/// digits, `-`, `.`, `_` and `~`.  (Bytes are written by their codes here:
/// 0x25 is `%`, 0x26 is `&`, 0x3d is `=`.)
pub open spec fn is_unreserved(b: u8) -> bool {
    (0x30u8 <= b <= 0x39u8) || (0x61u8 <= b <= 0x7au8) || (0x41u8 <= b <= 0x5au8) || b == 0x2du8 || b == 0x2eu8
        || b == 0x5fu8 || b == 0x7eu8
}

/// The upper-case hexadecimal digit for `n < 16`.
pub open spec fn hex_digit(n: u8) -> u8 {
    if n < 10 {
        (0x30u8 + n) as u8
    } else {
        (0x41u8 + n - 10) as u8
    }
}

/// The value of a hexadecimal digit of either case.
pub open spec fn hex_value(c: u8) -> Option<u8> {
    if 0x30u8 <= c <= 0x39u8 {
        Some((c - 0x30u8) as u8)
    } else if 0x41u8 <= c <= 0x46u8 {
        Some((c - 0x41u8 + 10) as u8)
    } else if 0x61u8 <= c <= 0x66u8 {
        Some((c - 0x61u8 + 10) as u8)
    } else {
        None
    }
}

/// One byte as it is written in a query: itself, or `%` and two hex digits.
pub open spec fn pct_byte(b: u8) -> Seq<u8> {
    if is_unreserved(b) {
        seq![b]
    } else {
        seq![0x25u8, hex_digit(b / 16), hex_digit(b % 16)]
    }
}

pub open spec fn pct_encode(b: Seq<u8>) -> Seq<u8>
    decreases b.len(),
{
    if b.len() == 0 {
        Seq::empty()
    } else {
        pct_encode(b.drop_last()) + pct_byte(b.last())
    }
}

/// Reads `%XX` escapes back into bytes; every other byte stands for itself.
/// `None` when a `%` is not followed by two hex digits.
pub open spec fn pct_decode(q: Seq<u8>) -> Option<Seq<u8>>
    decreases q.len(),
{
    if q.len() == 0 {
        Some(Seq::empty())
    } else if q[0] == 0x25u8 {
        if q.len() >= 3 && hex_value(q[1]) is Some && hex_value(q[2]) is Some {
            match pct_decode(q.skip(3)) {
                Some(r) => Some(seq![(hex_value(q[1])->0 * 16 + hex_value(q[2])->0) as u8] + r),
                None => None,
            }
        } else {
            None
        }
    } else {
        match pct_decode(q.skip(1)) {
            Some(r) => Some(seq![q[0]] + r),
            None => None,
        }
    }
}

proof fn lemma_pct_byte_decode(x: u8, rest: Seq<u8>)
    ensures
        pct_decode(pct_byte(x) + rest) == match pct_decode(rest) {
            Some(r) => Some(seq![x] + r),
            None => None,
        },
{
    let q = pct_byte(x) + rest;
    if is_unreserved(x) {
        assert(q.skip(1) =~= rest);
    } else {
        assert(q.skip(3) =~= rest);
        let hi = (x / 16) as u8;
        let lo = (x % 16) as u8;
        assert(hi < 16 && lo < 16);
        assert(hex_value(hex_digit(hi)) == Some(hi));
        assert(hex_value(hex_digit(lo)) == Some(lo));
        assert((hi * 16 + lo) as u8 == x) by (nonlinear_arith)
            requires
                hi == x / 16,
                lo == x % 16,
        ;
    }
}

proof fn lemma_pct_round_trip_rest(a: Seq<u8>, rest: Seq<u8>)
    ensures
        pct_decode(pct_encode(a) + rest) == match pct_decode(rest) {
            Some(r) => Some(a + r),
            None => None,
        },
    decreases a.len(),
{
    if a.len() == 0 {
        assert(pct_encode(a) + rest =~= rest);
        match pct_decode(rest) {
            Some(r) => {
                assert(a + r =~= r);
            },
            None => {},
        }
    } else {
        let x = a.last();
        assert(pct_encode(a) + rest =~= pct_encode(a.drop_last()) + (pct_byte(x) + rest));
        lemma_pct_round_trip_rest(a.drop_last(), pct_byte(x) + rest);
        lemma_pct_byte_decode(x, rest);
        match pct_decode(rest) {
            Some(r) => {
                assert(a.drop_last() + (seq![x] + r) =~= a + r);
            },
            None => {},
        }
    }
}

/// Escaping then reading back gives the same bytes.
pub proof fn lemma_pct_round_trip(a: Seq<u8>)
    ensures
        pct_decode(pct_encode(a)) == Some(a),
{
    lemma_pct_round_trip_rest(a, Seq::empty());
    assert(pct_encode(a) + Seq::<u8>::empty() =~= pct_encode(a));
    assert(a + Seq::<u8>::empty() =~= a);
}

/// Escaped text holds no `&` and no `=`, so it can stand in a query pair.
pub proof fn lemma_pct_plain(a: Seq<u8>)
    ensures
        forall|i: int|
            0 <= i < pct_encode(a).len() ==> #[trigger] pct_encode(a)[i] != 0x26u8
                && pct_encode(a)[i] != 0x3du8,
        a.len() > 0 ==> pct_encode(a).len() > 0,
    decreases a.len(),
{
    if a.len() > 0 {
        lemma_pct_plain(a.drop_last());
        let x = a.last();
        assert(x / 16 < 16 && x % 16 < 16);
        let e = pct_encode(a);
        assert forall|i: int| 0 <= i < e.len() implies #[trigger] e[i] != 0x26u8 && e[i] != 0x3du8 by {
            if i >= pct_encode(a.drop_last()).len() {
                assert(e[i] == pct_byte(x)[i - pct_encode(a.drop_last()).len()]);
            } else {
                assert(e[i] == pct_encode(a.drop_last())[i]);
            }
        }
    }
}

fn hex_digit_exec(n: u8) -> (r: u8)
    requires
        n < 16,
    ensures
        r == hex_digit(n),
{
    if n < 10 {
        0x30u8 + n
    } else {
        0x41u8 + n - 10
    }
}

fn hex_value_exec(c: u8) -> (r: Option<u8>)
    ensures
        r == hex_value(c),
{
    if 0x30u8 <= c && c <= 0x39u8 {
        Some(c - 0x30u8)
    } else if 0x41u8 <= c && c <= 0x46u8 {
        Some(c - 0x41u8 + 10)
    } else if 0x61u8 <= c && c <= 0x66u8 {
        Some(c - 0x61u8 + 10)
    } else {
        None
    }
}

/// Appends `b` to `out` with every byte that is not unreserved escaped.
pub fn push_pct(out: &mut Vec<u8>, b: &[u8])
    ensures
        final(out)@ == old(out)@ + pct_encode(b@),
{
    let ghost start = out@;
    let mut i: usize = 0;
    assert(b@.take(0) =~= Seq::<u8>::empty());
    assert(start + Seq::<u8>::empty() =~= start);
    while i < b.len()
        invariant
            i <= b@.len(),
            out@ == start + pct_encode(b@.take(i as int)),
        decreases b@.len() - i,
    {
        let x = b[i];
        let ghost before = out@;
        if (0x30u8 <= x && x <= 0x39u8) || (0x61u8 <= x && x <= 0x7au8) || (0x41u8 <= x && x <= 0x5au8) || x
            == 0x2du8 || x == 0x2eu8 || x == 0x5fu8 || x == 0x7eu8 {
            out.push(x);
        } else {
            out.push(0x25u8);
            out.push(hex_digit_exec(x / 16));
            out.push(hex_digit_exec(x % 16));
        }
        assert(out@ =~= before + pct_byte(x));
        assert(b@.take(i + 1).drop_last() =~= b@.take(i as int));
        i = i + 1;
    }
    assert(b@.take(i as int) =~= b@);
}

/// Reads `%XX` escapes in `q` back into bytes; `None` on a broken escape.
pub fn pct_decode_exec(q: &[u8]) -> (r: Option<Vec<u8>>)
    ensures
        match r {
            Some(v) => pct_decode(q@) == Some(v@),
            None => pct_decode(q@) is None,
        },
{
    let mut out: Vec<u8> = Vec::new();
    let mut i: usize = 0;
    assert(q@.skip(0) =~= q@);
    while i < q.len()
        invariant
            i <= q@.len(),
            pct_decode(q@) == match pct_decode(q@.skip(i as int)) {
                Some(r) => Some(out@ + r),
                None => None,
            },
        decreases q@.len() - i,
    {
        let ghost rest = q@.skip(i as int);
        let ghost before = out@;
        if q[i] == 0x25u8 {
            if q.len() - i < 3 {
                return None;
            }
            let hi = hex_value_exec(q[i + 1]);
            let lo = hex_value_exec(q[i + 2]);
            match (hi, lo) {
                (Some(h), Some(l)) => {
                    assert(h < 16 && l < 16);
                    out.push(h * 16 + l);
                    assert(rest.skip(3) =~= q@.skip(i + 3));
                    i = i + 3;
                    proof {
                        match pct_decode(q@.skip(i as int)) {
                            Some(r) => {
                                assert(before + (seq![(h * 16 + l) as u8] + r) =~= out@ + r);
                            },
                            None => {},
                        }
                    }
                },
                _ => {
                    return None;
                },
            }
        } else {
            out.push(q[i]);
            assert(rest.skip(1) =~= q@.skip(i + 1));
            i = i + 1;
            proof {
                match pct_decode(q@.skip(i as int)) {
                    Some(r) => {
                        assert(before + (seq![q@[i - 1]] + r) =~= out@ + r);
                    },
                    None => {},
                }
            }
        }
    }
    assert(q@.skip(i as int) =~= Seq::<u8>::empty());
    assert(out@ + Seq::<u8>::empty() =~= out@);
    Some(out)
}

/// `q` cut at every `&` (byte 0x26); there is always at least one piece.
pub open spec fn split_amp(q: Seq<u8>) -> Seq<Seq<u8>>
    decreases q.len(),
{
    if q.len() == 0 {
        seq![Seq::empty()]
    } else {
        let s = split_amp(q.drop_last());
        if q.last() == 0x26u8 {
            s.push(Seq::empty())
        } else {
            s.update(s.len() - 1, s.last().push(q.last()))
        }
    }
}

/// The pieces joined with `&` between them.
pub open spec fn join_amp(segs: Seq<Seq<u8>>) -> Seq<u8>
    decreases segs.len(),
{
    if segs.len() == 0 {
        Seq::empty()
    } else if segs.len() == 1 {
        segs[0]
    } else {
        join_amp(segs.drop_last()) + seq![0x26u8] + segs.last()
    }
}

pub open spec fn no_byte(s: Seq<u8>, b: u8) -> bool {
    forall|i: int| 0 <= i < s.len() ==> #[trigger] s[i] != b
}

proof fn lemma_split_len(q: Seq<u8>)
    ensures
        split_amp(q).len() >= 1,
    decreases q.len(),
{
    if q.len() > 0 {
        lemma_split_len(q.drop_last());
    }
}

proof fn lemma_split_extend(a: Seq<u8>, b: Seq<u8>)
    requires
        no_byte(b, 0x26u8),
    ensures
        split_amp(a + b) == split_amp(a).update(
            split_amp(a).len() - 1,
            split_amp(a).last() + b,
        ),
    decreases b.len(),
{
    lemma_split_len(a);
    if b.len() == 0 {
        assert(a + b =~= a);
        assert(split_amp(a).last() + b =~= split_amp(a).last());
        assert(split_amp(a).update(split_amp(a).len() - 1, split_amp(a).last())
            =~= split_amp(a));
    } else {
        assert((a + b).drop_last() =~= a + b.drop_last());
        lemma_split_extend(a, b.drop_last());
        assert(b.last() == b[b.len() - 1]);
        assert((a + b).last() == b.last());
        assert(b.last() != 0x26u8);
        let s = split_amp(a + b.drop_last());
        assert(s.len() == split_amp(a).len());
        assert(s.last() == split_amp(a).last() + b.drop_last());
        assert(split_amp(a + b) == s.update(s.len() - 1, s.last().push(b.last())));
        assert(split_amp(a).last() + b.drop_last() + seq![b.last()] =~= split_amp(a).last() + b);
        assert(s.last().push(b.last()) =~= split_amp(a).last() + b);
        assert(split_amp(a + b) =~= split_amp(a).update(
            split_amp(a).len() - 1,
            split_amp(a).last() + b,
        ));
    }
}

/// Cutting the joined pieces at `&` gives the pieces back, when none holds `&`.
pub proof fn lemma_split_join(segs: Seq<Seq<u8>>)
    requires
        segs.len() >= 1,
        forall|i: int| 0 <= i < segs.len() ==> no_byte(#[trigger] segs[i], 0x26u8),
    ensures
        split_amp(join_amp(segs)) == segs,
    decreases segs.len(),
{
    if segs.len() == 1 {
        lemma_split_extend(Seq::empty(), segs[0]);
        assert(Seq::<u8>::empty() + segs[0] =~= segs[0]);
        assert(Seq::<u8>::empty() + segs[0] =~= segs[0]);
        assert(split_amp(Seq::<u8>::empty()).update(0, Seq::<u8>::empty() + segs[0]) =~= segs);
    } else {
        let front = join_amp(segs.drop_last()) + seq![0x26u8];
        lemma_split_join(segs.drop_last());
        lemma_split_extend(front, segs.last());
        assert(front.drop_last() =~= join_amp(segs.drop_last()));
        lemma_split_len(front);
        assert(split_amp(front) =~= segs.drop_last().push(Seq::empty()));
        assert(Seq::<u8>::empty() + segs.last() =~= segs.last());
        assert(split_amp(join_amp(segs)) =~= segs);
    }
}

/// Where the first `=` (byte 0x3d) of `s` stands, or `s.len()` when none does.
pub open spec fn first_eq(s: Seq<u8>) -> int
    decreases s.len(),
{
    if s.len() == 0 {
        0
    } else if s[0] == 0x3du8 {
        0
    } else {
        1 + first_eq(s.skip(1))
    }
}

/// A piece `key=value` cut at its first `=`; without one, all of it is key.
pub open spec fn split_eq(s: Seq<u8>) -> (Seq<u8>, Seq<u8>) {
    let j = first_eq(s);
    if j < s.len() {
        (s.take(j), s.skip(j + 1))
    } else {
        (s, Seq::empty())
    }
}

proof fn lemma_first_eq(s: Seq<u8>, j: int)
    requires
        0 <= j <= s.len(),
        forall|k: int| 0 <= k < j ==> s[k] != 0x3du8,
        j == s.len() || s[j] == 0x3du8,
    ensures
        first_eq(s) == j,
    decreases s.len(),
{
    if s.len() > 0 && j > 0 {
        lemma_first_eq(s.skip(1), j - 1);
    }
}

/// `k=v` cuts back into `k` and `v` when `k` holds no `=`.
pub proof fn lemma_split_eq_pair(k: Seq<u8>, v: Seq<u8>)
    requires
        no_byte(k, 0x3du8),
    ensures
        split_eq(k + seq![0x3du8] + v) == (k, v),
{
    let s = k + seq![0x3du8] + v;
    lemma_first_eq(s, k.len() as int);
    assert(s.take(k.len() as int) =~= k);
    assert(s.skip(k.len() as int + 1) =~= v);
}

/// Cuts `q` at every `&`.
pub fn split_amp_exec(q: &[u8]) -> (r: Vec<Vec<u8>>)
    ensures
        r@.map_values(|v: Vec<u8>| v@) == split_amp(q@),
{
    let mut segs: Vec<Vec<u8>> = Vec::new();
    let mut cur: Vec<u8> = Vec::new();
    let mut i: usize = 0;
    assert(q@.take(0) =~= Seq::<u8>::empty());
    assert(segs@.map_values(|v: Vec<u8>| v@).push(cur@) =~= split_amp(Seq::<u8>::empty()));
    while i < q.len()
        invariant
            i <= q@.len(),
            segs@.map_values(|v: Vec<u8>| v@).push(cur@) == split_amp(q@.take(i as int)),
        decreases q@.len() - i,
    {
        assert(q@.take(i + 1).drop_last() =~= q@.take(i as int));
        assert(q@.take(i + 1).last() == q@[i as int]);
        let ghost old_segs = segs@.map_values(|v: Vec<u8>| v@);
        let ghost old_cur = cur@;
        if q[i] == 0x26u8 {
            let done = cur;
            segs.push(done);
            cur = Vec::new();
            assert(segs@.map_values(|v: Vec<u8>| v@) =~= old_segs.push(old_cur));
        } else {
            cur.push(q[i]);
            assert(segs@.map_values(|v: Vec<u8>| v@) =~= old_segs);
        }
        assert(segs@.map_values(|v: Vec<u8>| v@).push(cur@) =~= split_amp(q@.take(i + 1)));
        i = i + 1;
    }
    assert(q@.take(i as int) =~= q@);
    segs.push(cur);
    assert(segs@.map_values(|v: Vec<u8>| v@) =~= split_amp(q@));
    segs
}

/// Cuts a piece at its first `=`.
pub fn split_eq_exec(s: &[u8]) -> (r: (Vec<u8>, Vec<u8>))
    ensures
        (r.0@, r.1@) == split_eq(s@),
{
    let mut j: usize = 0;
    while j < s.len() && s[j] != 0x3du8
        invariant
            j <= s@.len(),
            forall|k: int| 0 <= k < j ==> s@[k] != 0x3du8,
        decreases s@.len() - j,
    {
        j = j + 1;
    }
    proof {
        lemma_first_eq(s@, j as int);
    }
    let mut k: Vec<u8> = Vec::new();
    let mut v: Vec<u8> = Vec::new();
    let mut i: usize = 0;
    while i < j
        invariant
            i <= j <= s@.len(),
            k@ == s@.take(i as int),
        decreases j - i,
    {
        k.push(s[i]);
        assert(s@.take(i + 1) =~= s@.take(i as int).push(s@[i as int]));
        i = i + 1;
    }
    if j < s.len() {
        let mut i: usize = j + 1;
        assert(s@.subrange(j + 1, j + 1) =~= Seq::<u8>::empty());
        while i < s.len()
            invariant
                j < i <= s@.len(),
                v@ == s@.subrange(j + 1, i as int),
            decreases s@.len() - i,
        {
            v.push(s[i]);
            assert(s@.subrange(j + 1, i + 1) =~= s@.subrange(j + 1, i as int).push(s@[i as int]));
            i = i + 1;
        }
        assert(s@.subrange(j + 1, s@.len() as int) =~= s@.skip(j + 1));
    } else {
        assert(s@.take(j as int) =~= s@);
    }
    (k, v)
}

} // verus!
