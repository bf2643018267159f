//! The comment-header merge engine.  A category is opened by a banner line
//! of the shape `;===~~ NAME ~~===;` (a comment marker, a run of `=`, the
//! name between double tildes, a run of `=`, the closing marker, optional
//! trailing whitespace) and owns all text up to the next banner.  Merging
//! replaces a matching local category's body wholesale with the remote body
//! (keeping the local banner), or appends the whole category at the end.
//! A local name may be composite (`A/B`): it matches a remote name equal to
//! any of its slash-separated, trimmed parts.

use crate::text::{
    bytes_eq, chunk_line, first_byte, lemma_first_byte, lemma_first_byte_at,
    lemma_first_byte_none, ltrim_idx, push_bytes, rtrim_idx, rtrim_slice, spec_chunks, spec_rtrim,
    spec_trim, split_chunks, trim_slice, views, ws_byte,
};
use vstd::prelude::*;
use vstd::seq_lib::lemma_flatten_concat;

verus! {

/// Index just past the run of `=` bytes starting at `i`.
pub open spec fn eq_end(s: Seq<u8>, i: int) -> int
    decreases s.len() - i,
{
    if i < 0 || i >= s.len() || s[i] != 61 {
        i
    } else {
        eq_end(s, i + 1)
    }
}

/// Start of the run of `=` bytes ending just before `j`.
pub open spec fn eq_start(s: Seq<u8>, j: int) -> int
    decreases j,
{
    if j <= 0 || j > s.len() || s[j - 1] != 61 {
        j
    } else {
        eq_start(s, j - 1)
    }
}

/// A banner line: `;`, a run of `=`, optional whitespace, `~~`, the name,
/// `~~`, optional whitespace, a run of `=`, `;`, optional trailing
/// whitespace.  The scan is deterministic because the byte classes `=`,
/// whitespace and `~` are disjoint, and the closing run is anchored at the
/// end of the line.
pub open spec fn spec_is_ese_header(line: Seq<u8>) -> bool {
    &&& line.len() >= 1
    &&& line[0] == 59
    &&& {
        let e = eq_end(line, 1);
        &&& e > 1
        &&& {
            let w = ltrim_idx(line, e);
            &&& w + 2 <= line.len()
            &&& line[w] == 126
            &&& line[w + 1] == 126
            &&& {
                let q = rtrim_idx(line, line.len() as int);
                &&& q >= 1
                &&& line[q - 1] == 59
                &&& {
                    let p = eq_start(line, q - 1);
                    &&& p < q - 1
                    &&& {
                        let v = rtrim_idx(line, p);
                        &&& v >= 2
                        &&& line[v - 1] == 126
                        &&& line[v - 2] == 126
                        &&& v - 2 >= w + 2
                    }
                }
            }
        }
    }
}

/// The name on a banner line: the trimmed bytes between the tilde pairs.
pub open spec fn spec_ese_name(line: Seq<u8>) -> Seq<u8> {
    let w = ltrim_idx(line, eq_end(line, 1));
    let v = rtrim_idx(line, eq_start(line, rtrim_idx(line, line.len() as int) - 1));
    spec_trim(line.subrange(w + 2, v - 2))
}

/// Whether a remote name matches a local one: equal outright, or equal to a
/// trimmed slash-separated part of the local (composite) name.
pub open spec fn name_matches(local_name: Seq<u8>, remote_name: Seq<u8>) -> bool {
    local_name == remote_name || has_part(local_name, remote_name)
}

pub open spec fn has_part(s: Seq<u8>, remote_name: Seq<u8>) -> bool
    decreases s.len(),
    via has_part_decreases
{
    let k = first_byte(s, 47) as int;
    if k < s.len() {
        spec_trim(s.take(k)) == remote_name || has_part(s.skip(k + 1), remote_name)
    } else {
        spec_trim(s) == remote_name
    }
}

#[via_fn]
proof fn has_part_decreases(s: Seq<u8>, remote_name: Seq<u8>) {
    lemma_first_byte(s, 47);
}

/// Mathematical model of one category: banner text, name, raw body text.
#[verifier::ext_equal]
pub ghost struct CatModel {
    pub header: Seq<u8>,
    pub name: Seq<u8>,
    pub content: Seq<u8>,
}

/// One parsed category: its banner text (without the line feed), its name,
/// and its raw content — from the banner's line feed up to the next banner.
pub struct Category {
    pub header: Vec<u8>,
    pub name: Vec<u8>,
    pub content: Vec<u8>,
}

impl View for Category {
    type V = CatModel;

    open spec fn view(&self) -> CatModel {
        CatModel { header: self.header@, name: self.name@, content: self.content@ }
    }
}

pub open spec fn cat_views(s: Seq<Category>) -> Seq<CatModel> {
    Seq::new(s.len(), |i: int| s[i]@)
}

pub open spec fn is_header_chunk(c: Seq<u8>) -> bool {
    spec_is_ese_header(chunk_line(c))
}

pub open spec fn chunk_matches(c: Seq<u8>, remote_name: Seq<u8>) -> bool {
    is_header_chunk(c) && name_matches(spec_ese_name(chunk_line(c)), remote_name)
}

/// Index of the next banner chunk at or after `i`, or `cs.len()`.
pub open spec fn next_header(cs: Seq<Seq<u8>>, i: int) -> int
    decreases cs.len() - i,
{
    if i < 0 || i >= cs.len() {
        cs.len() as int
    } else if is_header_chunk(cs[i]) {
        i
    } else {
        next_header(cs, i + 1)
    }
}

/// Index of the next banner chunk at or after `i` whose name the remote
/// name matches, or `cs.len()`.
pub open spec fn next_matching(cs: Seq<Seq<u8>>, i: int, remote_name: Seq<u8>) -> int
    decreases cs.len() - i,
{
    if i < 0 || i >= cs.len() {
        cs.len() as int
    } else if chunk_matches(cs[i], remote_name) {
        i
    } else {
        next_matching(cs, i + 1, remote_name)
    }
}

/// The raw content owned by a banner at `i - 1`: the concatenation of the
/// chunks from `i` up to the next banner chunk.
pub open spec fn content_from(cs: Seq<Seq<u8>>, i: int) -> Seq<u8>
    decreases cs.len() - i,
{
    if i < 0 || i >= cs.len() || is_header_chunk(cs[i]) {
        Seq::empty()
    } else {
        cs[i] + content_from(cs, i + 1)
    }
}

/// The banner chunk's own line feed, which opens the category's content;
/// empty when the banner ends the document without one.
pub open spec fn banner_sep(c: Seq<u8>) -> Seq<u8> {
    if c.len() > 0 && c.last() == 10 {
        seq![10u8]
    } else {
        Seq::empty()
    }
}

/// The categories of a document, in order.  A category's content runs from
/// the end of the banner text — so it starts with the banner's line feed —
/// up to the next banner line, and `header + content` restores the
/// category's bytes.
pub open spec fn spec_cats(cs: Seq<Seq<u8>>, i: int) -> Seq<CatModel>
    decreases cs.len() - i,
{
    if i < 0 || i >= cs.len() {
        Seq::empty()
    } else if is_header_chunk(cs[i]) {
        seq![
            CatModel {
                header: chunk_line(cs[i]),
                name: spec_ese_name(chunk_line(cs[i])),
                content: banner_sep(cs[i]) + content_from(cs, i + 1),
            },
        ] + spec_cats(cs, i + 1)
    } else {
        spec_cats(cs, i + 1)
    }
}

/// Replacement: the span from the first matching local banner up to the
/// next banner is replaced by the local banner, the trimmed remote content
/// and a line feed; everything before and after is kept byte for byte.
pub open spec fn spec_try_replace(t: Seq<u8>, remote_name: Seq<u8>, remote_content: Seq<u8>) -> Option<
    Seq<u8>,
> {
    let cs = spec_chunks(t);
    let m = next_matching(cs, 0, remote_name);
    if m >= cs.len() {
        Option::None
    } else {
        let j = next_header(cs, m + 1);
        Option::Some(
            cs.take(m).flatten() + chunk_line(cs[m]) + seq![10u8] + spec_trim(remote_content)
                + seq![10u8] + cs.skip(j).flatten(),
        )
    }
}

/// Whether the text already ends with a blank line (two line feeds).
pub open spec fn ends_blank(t: Seq<u8>) -> bool {
    t.len() >= 2 && t[t.len() - 1] == 10 && t[t.len() - 2] == 10
}

/// Appending an unmatched category: the text is first terminated with a
/// line feed if it lacks one, then — unless it is all whitespace or
/// already ends with a blank line — one blank line of separation is
/// ensured, then the remote banner and trimmed content follow.
pub open spec fn spec_append_cat(t: Seq<u8>, header: Seq<u8>, content: Seq<u8>) -> Seq<u8> {
    let t1 = if t.len() == 0 || t.last() != 10 {
        t.push(10)
    } else {
        t
    };
    let t2 = if spec_rtrim(t1).len() > 0 && !ends_blank(t1) {
        t1.push(10)
    } else {
        t1
    };
    t2 + header + seq![10u8] + spec_trim(content) + seq![10u8]
}

pub open spec fn spec_ese_step(t: Seq<u8>, cat: CatModel) -> Seq<u8> {
    match spec_try_replace(t, cat.name, cat.content) {
        Option::Some(n) => n,
        Option::None => spec_append_cat(t, cat.header, cat.content),
    }
}

pub open spec fn spec_ese_merge_rec(t: Seq<u8>, cats: Seq<CatModel>, k: int) -> Seq<u8>
    decreases cats.len() - k,
{
    if k < 0 || k >= cats.len() {
        t
    } else {
        spec_ese_merge_rec(spec_ese_step(t, cats[k]), cats, k + 1)
    }
}

/// The whole comment-header merge: each remote category in order either
/// replaces the first matching local category or is appended at the end,
/// each step seeing the text the previous step produced.
pub open spec fn spec_ese_merge(local: Seq<u8>, remote: Seq<u8>) -> Seq<u8> {
    spec_ese_merge_rec(local, spec_cats(spec_chunks(remote), 0), 0)
}

pub proof fn lemma_next_header(cs: Seq<Seq<u8>>, i: int)
    requires
        0 <= i <= cs.len(),
    ensures
        i <= next_header(cs, i) <= cs.len(),
        next_header(cs, i) < cs.len() ==> is_header_chunk(cs[next_header(cs, i)]),
        forall|m: int| i <= m < next_header(cs, i) ==> !is_header_chunk(cs[m]),
    decreases cs.len() - i,
{
    if i < cs.len() && !is_header_chunk(cs[i]) {
        lemma_next_header(cs, i + 1);
    }
}

pub proof fn lemma_next_matching(cs: Seq<Seq<u8>>, i: int, rname: Seq<u8>)
    requires
        0 <= i <= cs.len(),
    ensures
        i <= next_matching(cs, i, rname) <= cs.len(),
        next_matching(cs, i, rname) < cs.len() ==> chunk_matches(
            cs[next_matching(cs, i, rname)],
            rname,
        ),
        forall|m: int| i <= m < next_matching(cs, i, rname) ==> !chunk_matches(cs[m], rname),
    decreases cs.len() - i,
{
    if i < cs.len() && !chunk_matches(cs[i], rname) {
        lemma_next_matching(cs, i + 1, rname);
    }
}

/// Composite-name matching: a local category named `A/B` is matched by a
/// remote category named `B` (for slash-free `A` and `B`, `B` in trimmed
/// form).
pub proof fn lemma_composite_name_matches(a: Seq<u8>, b: Seq<u8>)
    requires
        forall|i: int| 0 <= i < a.len() ==> a[i] != 47,
        forall|i: int| 0 <= i < b.len() ==> b[i] != 47,
        spec_trim(b) == b,
    ensures
        name_matches(a + seq![47u8] + b, b),
{
    let s = a + seq![47u8] + b;
    assert(s[a.len() as int] == 47);
    assert forall|j: int| 0 <= j < a.len() implies s[j] != 47 by {
        assert(s[j] == a[j]);
    }
    lemma_first_byte_at(s, 47, a.len() as int);
    let rest = s.skip(a.len() as int + 1);
    assert(rest =~= b);
    lemma_first_byte_none(b, 47);
    assert(has_part(b, b));
    assert(has_part(s, b));
}

/// Replacement property: when some local banner matches the remote name,
/// the replacement output is the local text up to the first matching
/// banner, then that banner kept verbatim, then exactly the trimmed remote
/// content, then the local text from the next banner on — so everything
/// before and after the replaced span is byte-identical and in its original
/// order.
pub proof fn lemma_category_replaced(t: Seq<u8>, rname: Seq<u8>, c: Seq<u8>)
    requires
        next_matching(spec_chunks(t), 0, rname) < spec_chunks(t).len(),
    ensures
        ({
            let cs = spec_chunks(t);
            let m = next_matching(cs, 0, rname);
            let j = next_header(cs, m + 1);
            &&& spec_try_replace(t, rname, c) == Option::Some(
                cs.take(m).flatten() + chunk_line(cs[m]) + seq![10u8] + spec_trim(c) + seq![10u8]
                    + cs.skip(j).flatten(),
            )
            &&& cs.take(m).flatten() + cs.skip(m).flatten() == t
            &&& cs.take(j).flatten() + cs.skip(j).flatten() == t
            &&& is_header_chunk(cs[m])
            &&& name_matches(spec_ese_name(chunk_line(cs[m])), rname)
            &&& forall|i: int| 0 <= i < m ==> !chunk_matches(cs[i], rname)
        }),
{
    let cs = spec_chunks(t);
    let m = next_matching(cs, 0, rname);
    lemma_next_matching(cs, 0, rname);
    let j = next_header(cs, m + 1);
    lemma_next_header(cs, m + 1);
    crate::text::lemma_chunks_flatten(t);
    assert(cs.take(m) + cs.skip(m) =~= cs);
    lemma_flatten_concat(cs.take(m), cs.skip(m));
    assert(cs.take(j) + cs.skip(j) =~= cs);
    lemma_flatten_concat(cs.take(j), cs.skip(j));
}

/// Append-when-unmatched: a remote category matching no local banner is
/// appended at the end, separated by exactly one blank line — one is
/// inserted unless the text already ends with one — and the prior text is
/// kept byte-identical as a prefix.
pub proof fn lemma_unmatched_category_appended(t: Seq<u8>, cat: CatModel)
    requires
        next_matching(spec_chunks(t), 0, cat.name) == spec_chunks(t).len(),
        spec_rtrim(t).len() > 0,
        t.len() > 0,
        t.last() == 10,
    ensures
        !ends_blank(t) ==> spec_ese_step(t, cat) == t + seq![10u8] + cat.header + seq![10u8]
            + spec_trim(cat.content) + seq![10u8],
        ends_blank(t) ==> spec_ese_step(t, cat) == t + cat.header + seq![10u8] + spec_trim(
            cat.content,
        ) + seq![10u8],
        spec_ese_step(t, cat).take(t.len() as int) == t,
{
    assert(spec_try_replace(t, cat.name, cat.content) is None);
    let res = spec_append_cat(t, cat.header, cat.content);
    if ends_blank(t) {
        assert(res =~= t + cat.header + seq![10u8] + spec_trim(cat.content) + seq![10u8]);
    } else {
        assert(res =~= t + seq![10u8] + cat.header + seq![10u8] + spec_trim(cat.content)
            + seq![10u8]);
    }
    assert(spec_ese_step(t, cat).take(t.len() as int) =~= t);
}

/// Every parsed category's header is a genuine banner line, and its name
/// is that banner's name — so a category appended by the merge parses back
/// as a category of the same name.
pub proof fn lemma_cats_are_banners(cs: Seq<Seq<u8>>, i: int)
    requires
        0 <= i,
    ensures
        forall|k: int|
            0 <= k < spec_cats(cs, i).len() ==> spec_is_ese_header(
                #[trigger] spec_cats(cs, i)[k].header,
            ) && spec_cats(cs, i)[k].name == spec_ese_name(spec_cats(cs, i)[k].header),
    decreases cs.len() - i,
{
    if i < cs.len() {
        lemma_cats_are_banners(cs, i + 1);
        let res = spec_cats(cs, i);
        let rest = spec_cats(cs, i + 1);
        assert forall|k: int|
            0 <= k < res.len() implies spec_is_ese_header(#[trigger] res[k].header)
            && res[k].name == spec_ese_name(res[k].header) by {
            if is_header_chunk(cs[i]) {
                if k > 0 {
                    assert(res[k] == rest[k - 1]);
                }
            } else {
                assert(res[k] == rest[k]);
            }
        }
    }
}

/// Round-trip: a remote document without banner lines contributes no
/// categories, and the merge returns the local document byte for byte.
pub proof fn lemma_merge_without_categories_is_identity(local: Seq<u8>, remote: Seq<u8>)
    requires
        spec_cats(spec_chunks(remote), 0).len() == 0,
    ensures
        spec_ese_merge(local, remote) == local,
{
}

fn chunk_line_slice<'a>(c: &'a [u8]) -> (r: &'a [u8])
    ensures
        r@ == chunk_line(c@),
{
    let n = c.len();
    if n > 0 && c[n - 1] == 10 {
        vstd::slice::slice_subrange(c, 0, n - 1)
    } else {
        vstd::slice::slice_subrange(c, 0, n)
    }
}

/// Decides whether a line is a category banner.
pub fn is_ese_header(line: &[u8]) -> (r: bool)
    ensures
        r == spec_is_ese_header(line@),
{
    let n = line.len();
    if n < 1 || line[0] != 59 {
        return false;
    }
    let mut e: usize = 1;
    while e < n && line[e] == 61
        invariant
            1 <= e <= n,
            n == line@.len(),
            eq_end(line@, 1) == eq_end(line@, e as int),
        decreases n - e,
    {
        e = e + 1;
    }
    if e == 1 {
        return false;
    }
    let mut w: usize = e;
    while w < n && ws_byte(line[w])
        invariant
            e <= w <= n,
            n == line@.len(),
            ltrim_idx(line@, e as int) == ltrim_idx(line@, w as int),
        decreases n - w,
    {
        w = w + 1;
    }
    if !(n - w >= 2 && line[w] == 126 && line[w + 1] == 126) {
        return false;
    }
    let mut q: usize = n;
    while q > 0 && ws_byte(line[q - 1])
        invariant
            q <= n,
            n == line@.len(),
            rtrim_idx(line@, n as int) == rtrim_idx(line@, q as int),
        decreases q,
    {
        q = q - 1;
    }
    if !(q >= 1 && line[q - 1] == 59) {
        return false;
    }
    let mut p: usize = q - 1;
    while p > 0 && line[p - 1] == 61
        invariant
            p <= q - 1,
            q <= n,
            n == line@.len(),
            eq_start(line@, q - 1) == eq_start(line@, p as int),
        decreases p,
    {
        p = p - 1;
    }
    if !(p < q - 1) {
        return false;
    }
    let mut v: usize = p;
    while v > 0 && ws_byte(line[v - 1])
        invariant
            v <= p,
            p < n,
            n == line@.len(),
            rtrim_idx(line@, p as int) == rtrim_idx(line@, v as int),
        decreases v,
    {
        v = v - 1;
    }
    v >= 2 && line[v - 1] == 126 && line[v - 2] == 126 && v - 2 >= w + 2
}

/// Extracts the name from a banner line.
pub fn ese_header_name(line: &[u8]) -> (r: Vec<u8>)
    requires
        spec_is_ese_header(line@),
    ensures
        r@ == spec_ese_name(line@),
{
    let n = line.len();
    let mut e: usize = 1;
    while e < n && line[e] == 61
        invariant
            1 <= e <= n,
            n == line@.len(),
            eq_end(line@, 1) == eq_end(line@, e as int),
        decreases n - e,
    {
        e = e + 1;
    }
    let mut w: usize = e;
    while w < n && ws_byte(line[w])
        invariant
            e <= w <= n,
            n == line@.len(),
            ltrim_idx(line@, e as int) == ltrim_idx(line@, w as int),
        decreases n - w,
    {
        w = w + 1;
    }
    let mut q: usize = n;
    while q > 0 && ws_byte(line[q - 1])
        invariant
            q <= n,
            n == line@.len(),
            rtrim_idx(line@, n as int) == rtrim_idx(line@, q as int),
        decreases q,
    {
        q = q - 1;
    }
    proof {
        assert(q as int == rtrim_idx(line@, line@.len() as int));
    }
    let mut p: usize = q - 1;
    while p > 0 && line[p - 1] == 61
        invariant
            p <= q - 1,
            q <= n,
            n == line@.len(),
            eq_start(line@, q - 1) == eq_start(line@, p as int),
        decreases p,
    {
        p = p - 1;
    }
    let mut v: usize = p;
    while v > 0 && ws_byte(line[v - 1])
        invariant
            v <= p,
            p <= n,
            n == line@.len(),
            rtrim_idx(line@, p as int) == rtrim_idx(line@, v as int),
        decreases v,
    {
        v = v - 1;
    }
    proof {
        assert(e as int == eq_end(line@, 1));
        assert(w as int == ltrim_idx(line@, e as int));
        assert(q as int == rtrim_idx(line@, line@.len() as int));
        assert(p as int == eq_start(line@, q as int - 1));
        assert(v as int == rtrim_idx(line@, p as int));
    }
    let interior = vstd::slice::slice_subrange(line, w + 2, v - 2);
    vstd::slice::slice_to_vec(trim_slice(interior))
}

/// Decides whether the remote name matches a (possibly composite) local
/// name.
pub fn matches_name(local_name: &[u8], remote_name: &[u8]) -> (r: bool)
    ensures
        r == name_matches(local_name@, remote_name@),
{
    if bytes_eq(local_name, remote_name) {
        return true;
    }
    has_part_exec(local_name, remote_name)
}

fn has_part_exec(s: &[u8], remote_name: &[u8]) -> (r: bool)
    ensures
        r == has_part(s@, remote_name@),
    decreases s@.len(),
{
    let n = s.len();
    let mut k: usize = 0;
    while k < n && s[k] != 47
        invariant
            k <= n,
            n == s@.len(),
            forall|j: int| 0 <= j < k ==> s@[j] != 47,
        decreases n - k,
    {
        k = k + 1;
    }
    if k < n {
        proof {
            lemma_first_byte_at(s@, 47, k as int);
        }
        let part = trim_slice(vstd::slice::slice_subrange(s, 0, k));
        if bytes_eq(part, remote_name) {
            return true;
        }
        has_part_exec(vstd::slice::slice_subrange(s, k + 1, n), remote_name)
    } else {
        proof {
            lemma_first_byte_none(s@, 47);
        }
        bytes_eq(trim_slice(s), remote_name)
    }
}

/// Parses a document into its categories, in order.
pub fn parse_categories(t: &[u8]) -> (r: Vec<Category>)
    ensures
        cat_views(r@) == spec_cats(spec_chunks(t@), 0),
{
    let chunks = split_chunks(t);
    let ghost cs = spec_chunks(t@);
    let mut r: Vec<Category> = Vec::new();
    let mut i: usize = 0;
    proof {
        assert(cat_views(r@) =~= Seq::<CatModel>::empty());
        assert(Seq::<CatModel>::empty() + spec_cats(cs, 0) =~= spec_cats(cs, 0));
    }
    while i < chunks.len()
        invariant
            i <= chunks.len(),
            views(chunks@) == cs,
            cat_views(r@) + spec_cats(cs, i as int) == spec_cats(cs, 0),
        decreases chunks.len() - i,
    {
        let line = chunk_line_slice(chunks[i].as_slice());
        if is_ese_header(line) {
            let name = ese_header_name(line);
            let header = vstd::slice::slice_to_vec(line);
            let mut content: Vec<u8> = Vec::new();
            if chunks[i].len() > 0 && chunks[i][chunks[i].len() - 1] == 10 {
                content.push(10);
            }
            let mut j: usize = i + 1;
            proof {
                assert(content@ =~= banner_sep(cs[i as int]));
                assert(content@ + content_from(cs, j as int) =~= banner_sep(cs[i as int])
                    + content_from(cs, i + 1));
            }
            while j < chunks.len() && !is_ese_header(chunk_line_slice(chunks[j].as_slice()))
                invariant
                    i < j <= chunks.len(),
                    views(chunks@) == cs,
                    content@ + content_from(cs, j as int) == banner_sep(cs[i as int])
                        + content_from(cs, i + 1),
                decreases chunks.len() - j,
            {
                push_bytes(&mut content, chunks[j].as_slice());
                proof {
                    assert(content_from(cs, j as int) == cs[j as int] + content_from(cs, j + 1));
                }
                j = j + 1;
            }
            proof {
                assert(content_from(cs, j as int) =~= Seq::<u8>::empty());
                assert(content@ =~= content@ + content_from(cs, j as int));
            }
            let cat = Category { header, name, content };
            proof {
                let m = CatModel {
                    header: chunk_line(cs[i as int]),
                    name: spec_ese_name(chunk_line(cs[i as int])),
                    content: banner_sep(cs[i as int]) + content_from(cs, i + 1),
                };
                assert(cat@ =~= m);
                assert(spec_cats(cs, i as int) == seq![m] + spec_cats(cs, i + 1));
                assert(cat_views(r@.push(cat)) =~= cat_views(r@).push(cat@));
                assert(cat_views(r@).push(cat@) + spec_cats(cs, i + 1) =~= cat_views(r@) + (
                seq![m] + spec_cats(cs, i + 1)));
            }
            r.push(cat);
        }
        i = i + 1;
    }
    proof {
        assert(spec_cats(cs, chunks@.len() as int) =~= Seq::<CatModel>::empty());
        assert(cat_views(r@) + Seq::<CatModel>::empty() =~= cat_views(r@));
    }
    r
}

fn concat_range_into(out: &mut Vec<u8>, chunks: &Vec<Vec<u8>>, from: usize, to: usize)
    requires
        from <= to <= chunks@.len(),
    ensures
        final(out)@ == old(out)@ + views(chunks@).subrange(from as int, to as int).flatten(),
{
    let ghost cs = views(chunks@);
    let mut i: usize = from;
    proof {
        assert(cs.subrange(from as int, from as int) =~= Seq::<Seq<u8>>::empty());
        assert(Seq::<Seq<u8>>::empty().flatten() =~= Seq::<u8>::empty());
        assert(out@ + Seq::<u8>::empty() =~= out@);
    }
    while i < to
        invariant
            from <= i <= to <= chunks@.len(),
            cs == views(chunks@),
            out@ == old(out)@ + cs.subrange(from as int, i as int).flatten(),
        decreases to - i,
    {
        push_bytes(out, chunks[i].as_slice());
        proof {
            let pre = cs.subrange(from as int, i as int);
            let nxt = cs.subrange(from as int, i + 1);
            assert(nxt =~= pre + seq![cs[i as int]]);
            lemma_flatten_concat(pre, seq![cs[i as int]]);
            seq![cs[i as int]].lemma_flatten_one_element();
            assert(old(out)@ + pre.flatten() + cs[i as int] =~= old(out)@ + nxt.flatten());
        }
        i = i + 1;
    }
}

/// Replaces the first matching local category's span with the local banner
/// and the trimmed remote content, or reports that no category matches.
pub fn try_replace_category(local: &[u8], remote_name: &[u8], remote_content: &[u8]) -> (r: Option<
    Vec<u8>,
>)
    ensures
        match r {
            Option::Some(v) => spec_try_replace(local@, remote_name@, remote_content@)
                == Option::Some(v@),
            Option::None => spec_try_replace(local@, remote_name@, remote_content@)
                is None,
        },
{
    let chunks = split_chunks(local);
    let ghost cs = spec_chunks(local@);
    let n = chunks.len();
    let mut m: usize = 0;
    while m < n
        invariant
            m <= n,
            n == chunks@.len(),
            views(chunks@) == cs,
            cs == spec_chunks(local@),
            next_matching(cs, 0, remote_name@) == next_matching(cs, m as int, remote_name@),
        decreases n - m,
    {
        let line = chunk_line_slice(chunks[m].as_slice());
        if is_ese_header(line) {
            let name = ese_header_name(line);
            if matches_name(name.as_slice(), remote_name) {
                proof {
                    assert(chunk_matches(cs[m as int], remote_name@));
                    assert(next_matching(cs, 0, remote_name@) == m as int);
                }
                let mut j: usize = m + 1;
                while j < n && !is_ese_header(chunk_line_slice(chunks[j].as_slice()))
                    invariant
                        m < j <= n,
                        n == chunks@.len(),
                        views(chunks@) == cs,
                        next_header(cs, m + 1) == next_header(cs, j as int),
                    decreases n - j,
                {
                    j = j + 1;
                }
                proof {
                    assert(next_header(cs, m + 1) == j as int);
                }
                let mut out: Vec<u8> = Vec::new();
                proof {
                    assert(cs.take(m as int) =~= cs.subrange(0, m as int));
                }
                concat_range_into(&mut out, &chunks, 0, m);
                let ghost o1 = out@;
                proof {
                    assert(o1 =~= cs.take(m as int).flatten());
                }
                let hline = chunk_line_slice(chunks[m].as_slice());
                proof {
                    assert(views(chunks@)[m as int] == chunks@[m as int]@);
                    assert(hline@ == chunk_line(cs[m as int]));
                }
                push_bytes(&mut out, hline);
                out.push(10);
                push_bytes(&mut out, trim_slice(remote_content));
                out.push(10);
                let ghost o2 = out@;
                proof {
                    assert(o2 =~= o1 + chunk_line(cs[m as int]) + seq![10u8] + spec_trim(
                        remote_content@,
                    ) + seq![10u8]);
                    assert(cs.skip(j as int) =~= cs.subrange(j as int, n as int));
                }
                concat_range_into(&mut out, &chunks, j, n);
                proof {
                    assert(cs.len() == n as int);
                    assert(m < n);
                    assert(cs == spec_chunks(local@));
                    assert(next_matching(spec_chunks(local@), 0, remote_name@) == m as int);
                    assert(next_header(spec_chunks(local@), m as int + 1) == j as int);
                    assert(out@ == o2 + cs.subrange(j as int, n as int).flatten());
                    assert(out@ =~= cs.take(m as int).flatten() + chunk_line(cs[m as int])
                        + seq![10u8] + spec_trim(remote_content@) + seq![10u8] + cs.skip(
                        j as int,
                    ).flatten());
                    assert(spec_try_replace(local@, remote_name@, remote_content@)
                        == Option::Some(out@));
                }
                return Some(out);
            }
        }
        proof {
            assert(!chunk_matches(cs[m as int], remote_name@));
        }
        m = m + 1;
    }
    proof {
        assert(next_matching(cs, n as int, remote_name@) == cs.len());
    }
    None
}

/// Merges a remote comment-header document into a local one and returns the
/// merged document.  The category hint is accepted and ignored: the remote
/// banners name their categories themselves.
pub fn install_content(local: &[u8], remote: &[u8], _category_hint: &[u8]) -> (merged: Vec<u8>)
    ensures
        merged@ == spec_ese_merge(local@, remote@),
{
    let rcats = parse_categories(remote);
    let ghost rc = spec_cats(spec_chunks(remote@), 0);
    let mut t: Vec<u8> = vstd::slice::slice_to_vec(local);
    let mut k: usize = 0;
    while k < rcats.len()
        invariant
            k <= rcats.len(),
            cat_views(rcats@) == rc,
            spec_ese_merge_rec(t@, rc, k as int) == spec_ese_merge(local@, remote@),
        decreases rcats.len() - k,
    {
        let ghost t0 = t@;
        match try_replace_category(
            t.as_slice(),
            rcats[k].name.as_slice(),
            rcats[k].content.as_slice(),
        ) {
            Some(nt) => {
                t = nt;
                proof {
                    assert(spec_ese_step(t0, rc[k as int]) == t@);
                }
            },
            None => {
                let needs_nl = t.len() == 0 || *t.last().unwrap() != 10;
                if needs_nl {
                    t.push(10);
                }
                let ghost t1 = t@;
                let blank = t.len() >= 2 && t[t.len() - 1] == 10 && t[t.len() - 2] == 10;
                let sep = rtrim_slice(t.as_slice()).len() > 0 && !blank;
                if sep {
                    t.push(10);
                }
                let ghost t2 = t@;
                push_bytes(&mut t, rcats[k].header.as_slice());
                t.push(10);
                push_bytes(&mut t, trim_slice(rcats[k].content.as_slice()));
                t.push(10);
                proof {
                    let cat = rc[k as int];
                    assert(t1 == if t0.len() == 0 || t0.last() != 10 {
                        t0.push(10)
                    } else {
                        t0
                    });
                    assert(blank == ends_blank(t1));
                    assert(t2 == if spec_rtrim(t1).len() > 0 && !ends_blank(t1) {
                        t1.push(10)
                    } else {
                        t1
                    });
                    assert(t@ =~= t2 + cat.header + seq![10u8] + spec_trim(cat.content)
                        + seq![10u8]);
                    assert(spec_ese_step(t0, cat) == t@);
                }
            },
        }
        k = k + 1;
    }
    t
}

} // verus!
