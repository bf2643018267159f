//! Byte-level text primitives shared by the two merge engines: splitting a
//! document into newline-terminated chunks, line normalisation, and ASCII
//! whitespace trimming.

use vstd::prelude::*;

verus! {

/// The whitespace the merge engines trim: the six ASCII whitespace bytes
/// (space, tab, carriage return, line feed, vertical tab, form feed).
/// Trimming is deliberately ASCII-only: the engines work on raw bytes, and
/// a multi-byte whitespace character (such as a no-break space) is treated
/// as content, never stripped from a name or a banner.
pub open spec fn is_ws(b: u8) -> bool {
    b == 32 || b == 9 || b == 13 || b == 10 || b == 11 || b == 12
}

pub fn ws_byte(b: u8) -> (r: bool)
    ensures
        r == is_ws(b),
{
    b == 32 || b == 9 || b == 13 || b == 10 || b == 11 || b == 12
}

/// Index of the first occurrence of `b` in `t`, or `t.len()` if absent.
pub open spec fn first_byte(t: Seq<u8>, b: u8) -> nat
    decreases t.len(),
{
    if t.len() == 0 {
        0
    } else if t[0] == b {
        0
    } else {
        (1 + first_byte(t.drop_first(), b)) as nat
    }
}

pub proof fn lemma_first_byte(t: Seq<u8>, b: u8)
    ensures
        first_byte(t, b) <= t.len(),
        first_byte(t, b) < t.len() ==> t[first_byte(t, b) as int] == b,
        forall|j: int| 0 <= j < first_byte(t, b) ==> t[j] != b,
    decreases t.len(),
{
    if t.len() > 0 && t[0] != b {
        lemma_first_byte(t.drop_first(), b);
        let k = first_byte(t, b) as int;
        if k < t.len() {
            assert(t.drop_first()[k - 1] == t[k]);
        }
        assert forall|j: int| 0 <= j < k implies t[j] != b by {
            if j > 0 {
                assert(t.drop_first()[j - 1] == t[j]);
            }
        }
    }
}

pub proof fn lemma_first_byte_at(t: Seq<u8>, b: u8, k: int)
    requires
        0 <= k < t.len(),
        t[k] == b,
        forall|j: int| 0 <= j < k ==> t[j] != b,
    ensures
        first_byte(t, b) == k,
{
    lemma_first_byte(t, b);
}

pub proof fn lemma_first_byte_none(t: Seq<u8>, b: u8)
    requires
        forall|j: int| 0 <= j < t.len() ==> t[j] != b,
    ensures
        first_byte(t, b) == t.len(),
{
    lemma_first_byte(t, b);
}

/// The views of a sequence of byte vectors.
pub open spec fn views(v: Seq<Vec<u8>>) -> Seq<Seq<u8>> {
    Seq::new(v.len(), |i: int| v[i]@)
}

/// A document split into chunks: each chunk ends with a line feed, except
/// possibly the last.  The chunks concatenate back to the document.
pub open spec fn spec_chunks(t: Seq<u8>) -> Seq<Seq<u8>>
    decreases t.len(),
    via spec_chunks_decreases
{
    if t.len() == 0 {
        Seq::empty()
    } else {
        let k = first_byte(t, 10) as int;
        if k < t.len() {
            seq![t.take(k + 1)] + spec_chunks(t.skip(k + 1))
        } else {
            seq![t]
        }
    }
}

#[via_fn]
proof fn spec_chunks_decreases(t: Seq<u8>) {
    lemma_first_byte(t, 10);
}

pub proof fn lemma_chunks_flatten(t: Seq<u8>)
    ensures
        spec_chunks(t).flatten() == t,
    decreases t.len(),
{
    if t.len() == 0 {
        assert(spec_chunks(t).flatten() =~= t);
    } else {
        lemma_first_byte(t, 10);
        let k = first_byte(t, 10) as int;
        if k < t.len() {
            let rest = t.skip(k + 1);
            lemma_chunks_flatten(rest);
            let cs = seq![t.take(k + 1)] + spec_chunks(rest);
            assert(cs.drop_first() =~= spec_chunks(rest));
            assert(cs.flatten() == t.take(k + 1) + spec_chunks(rest).flatten());
            assert(t.take(k + 1) + rest =~= t);
        } else {
            let cs = seq![t];
            assert(cs.drop_first() =~= Seq::<Seq<u8>>::empty());
            assert(cs.flatten() == cs.first() + cs.drop_first().flatten());
            assert(Seq::<Seq<u8>>::empty().flatten() =~= Seq::<u8>::empty());
            assert(cs.first() + Seq::<u8>::empty() =~= t);
        }
    }
}

pub fn split_chunks(t: &[u8]) -> (r: Vec<Vec<u8>>)
    ensures
        views(r@) == spec_chunks(t@),
{
    let n = t.len();
    let mut r: Vec<Vec<u8>> = Vec::new();
    let mut start: usize = 0;
    let mut i: usize = 0;
    proof {
        assert(t@.skip(0) =~= t@);
        assert(views(r@) =~= Seq::<Seq<u8>>::empty());
        assert(views(r@) + spec_chunks(t@) =~= spec_chunks(t@));
    }
    while i < n
        invariant
            n == t@.len(),
            start <= i <= n,
            spec_chunks(t@) == views(r@) + spec_chunks(t@.skip(start as int)),
            forall|j: int| start <= j < i ==> t@[j] != 10,
        decreases n - i,
    {
        if t[i] == 10 {
            let c = vstd::slice::slice_to_vec(vstd::slice::slice_subrange(t, start, i + 1));
            proof {
                let suf = t@.skip(start as int);
                assert forall|j: int| 0 <= j < i - start implies suf[j] != 10 by {
                    assert(suf[j] == t@[start + j]);
                }
                assert(suf[i - start] == t@[i as int]);
                lemma_first_byte_at(suf, 10, i - start);
                assert(suf.take(i - start + 1) =~= t@.subrange(start as int, i + 1));
                assert(suf.skip(i - start + 1) =~= t@.skip(i + 1));
                assert(spec_chunks(suf) == seq![t@.subrange(start as int, i + 1)] + spec_chunks(
                    t@.skip(i + 1)));
                assert(views(r@.push(c)) =~= views(r@) + seq![c@]);
                assert(views(r@) + spec_chunks(suf) =~= views(r@.push(c)) + spec_chunks(
                    t@.skip(i + 1)));
            }
            r.push(c);
            start = i + 1;
        }
        i = i + 1;
    }
    if start < n {
        let c = vstd::slice::slice_to_vec(vstd::slice::slice_subrange(t, start, n));
        proof {
            let suf = t@.skip(start as int);
            assert forall|j: int| 0 <= j < suf.len() implies suf[j] != 10 by {
                assert(suf[j] == t@[start + j]);
            }
            lemma_first_byte_none(suf, 10);
            assert(suf =~= t@.subrange(start as int, n as int));
            assert(spec_chunks(suf) == seq![suf]);
            assert(views(r@.push(c)) =~= views(r@) + seq![c@]);
        }
        r.push(c);
    } else {
        proof {
            assert(t@.skip(start as int) =~= Seq::<u8>::empty());
            assert(views(r@) + spec_chunks(t@.skip(start as int)) =~= views(r@));
        }
    }
    r
}

/// A chunk without its line feed terminator; the carriage return, if any,
/// stays.
pub open spec fn chunk_line(c: Seq<u8>) -> Seq<u8> {
    if c.len() > 0 && c.last() == 10 {
        c.drop_last()
    } else {
        c
    }
}

/// A chunk as `str::lines` would yield it: the line feed goes, and a
/// carriage return directly before it goes too.
pub open spec fn sct_line(c: Seq<u8>) -> Seq<u8> {
    if c.len() > 0 && c.last() == 10 {
        let d = c.drop_last();
        if d.len() > 0 && d.last() == 13 {
            d.drop_last()
        } else {
            d
        }
    } else {
        c
    }
}

pub open spec fn spec_sct_lines(t: Seq<u8>) -> Seq<Seq<u8>> {
    spec_chunks(t).map_values(|c: Seq<u8>| sct_line(c))
}

pub fn sct_lines(t: &[u8]) -> (r: Vec<Vec<u8>>)
    ensures
        views(r@) == spec_sct_lines(t@),
{
    let chunks = split_chunks(t);
    let mut r: Vec<Vec<u8>> = Vec::new();
    let mut i: usize = 0;
    while i < chunks.len()
        invariant
            i <= chunks.len(),
            views(chunks@) == spec_chunks(t@),
            views(r@) =~= spec_sct_lines(t@).take(i as int),
        decreases chunks.len() - i,
    {
        let c = &chunks[i];
        let mut end = c.len();
        if end > 0 && c[end - 1] == 10 {
            end = end - 1;
            if end > 0 && c[end - 1] == 13 {
                end = end - 1;
            }
        }
        let line = vstd::slice::slice_to_vec(vstd::slice::slice_subrange(c.as_slice(), 0, end));
        proof {
            assert(c@ == views(chunks@)[i as int]);
            assert(line@ =~= sct_line(c@));
            assert(spec_sct_lines(t@)[i as int] == sct_line(c@));
            assert(views(r@.push(line)) =~= views(r@) + seq![line@]);
            assert(views(r@) + seq![line@] =~= spec_sct_lines(t@).take(i + 1));
        }
        r.push(line);
        i = i + 1;
    }
    proof {
        assert(spec_sct_lines(t@).take(chunks@.len() as int) =~= spec_sct_lines(t@));
    }
    r
}

/// Index of the first non-whitespace byte at or after `i`.
pub open spec fn ltrim_idx(s: Seq<u8>, i: int) -> int
    decreases s.len() - i,
{
    if i < 0 || i >= s.len() || !is_ws(s[i]) {
        i
    } else {
        ltrim_idx(s, i + 1)
    }
}

/// Index just past the last non-whitespace byte at or before `j`.
pub open spec fn rtrim_idx(s: Seq<u8>, j: int) -> int
    decreases j,
{
    if j <= 0 || j > s.len() || !is_ws(s[j - 1]) {
        j
    } else {
        rtrim_idx(s, j - 1)
    }
}

pub open spec fn spec_rtrim(s: Seq<u8>) -> Seq<u8> {
    s.take(rtrim_idx(s, s.len() as int))
}

pub open spec fn spec_trim(s: Seq<u8>) -> Seq<u8> {
    let r = spec_rtrim(s);
    r.skip(ltrim_idx(r, 0))
}

pub fn rtrim_slice<'a>(s: &'a [u8]) -> (r: &'a [u8])
    ensures
        r@ == spec_rtrim(s@),
{
    let mut j = s.len();
    while j > 0 && ws_byte(s[j - 1])
        invariant
            j <= s.len(),
            rtrim_idx(s@, s@.len() as int) == rtrim_idx(s@, j as int),
        decreases j,
    {
        j = j - 1;
    }
    vstd::slice::slice_subrange(s, 0, j)
}

pub fn trim_slice<'a>(s: &'a [u8]) -> (r: &'a [u8])
    ensures
        r@ == spec_trim(s@),
{
    let t = rtrim_slice(s);
    let mut i: usize = 0;
    while i < t.len() && ws_byte(t[i])
        invariant
            i <= t.len(),
            ltrim_idx(t@, 0) == ltrim_idx(t@, i as int),
        decreases t.len() - i,
    {
        i = i + 1;
    }
    vstd::slice::slice_subrange(t, i, t.len())
}

pub fn bytes_eq(a: &[u8], b: &[u8]) -> (r: bool)
    ensures
        r <==> a@ == b@,
{
    if a.len() != b.len() {
        proof {
            assert(a@.len() != b@.len());
        }
        return false;
    }
    let mut i: usize = 0;
    while i < a.len()
        invariant
            i <= a.len(),
            a@.len() == b@.len(),
            forall|j: int| 0 <= j < i ==> a@[j] == b@[j],
        decreases a.len() - i,
    {
        if a[i] != b[i] {
            return false;
        }
        i = i + 1;
    }
    proof {
        assert(a@ =~= b@);
    }
    true
}

pub fn push_bytes(out: &mut Vec<u8>, src: &[u8])
    ensures
        final(out)@ == old(out)@ + src@,
{
    let mut j: usize = 0;
    while j < src.len()
        invariant
            j <= src.len(),
            out@ =~= old(out)@ + src@.take(j as int),
        decreases src.len() - j,
    {
        out.push(src[j]);
        j = j + 1;
    }
    proof {
        assert(src@.take(src@.len() as int) =~= src@);
    }
}

} // verus!
