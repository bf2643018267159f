//! The bracket-section merge engine.  A document is a sequence of lines; a
//! line of the shape `[NAME]` opens the section of that name, every other
//! line belongs to the currently open section, and lines before the first
//! header are dropped.  Merging appends each remote section's body to the
//! local section of the same name, or adds the whole section at the end;
//! local section order is preserved.

use crate::text::{
    bytes_eq, push_bytes, sct_lines, spec_sct_lines, views,
};
use vstd::prelude::*;

verus! {

/// Mathematical model of one bracket section: its name and its body lines.
#[verifier::ext_equal]
pub ghost struct SectionModel {
    pub name: Seq<u8>,
    pub body: Seq<Seq<u8>>,
}

/// One bracket section: its name (the bytes between `[` and `]`) and its
/// body lines, in order.
pub struct Section {
    pub name: Vec<u8>,
    pub body: Vec<Vec<u8>>,
}

impl View for Section {
    type V = SectionModel;

    open spec fn view(&self) -> SectionModel {
        SectionModel { name: self.name@, body: views(self.body@) }
    }
}

pub open spec fn sec_views(s: Seq<Section>) -> Seq<SectionModel> {
    Seq::new(s.len(), |i: int| s[i]@)
}

/// A header line: `[` then the name then `]`.
pub open spec fn is_sct_header(line: Seq<u8>) -> bool {
    line.len() >= 2 && line[0] == 91 && line.last() == 93
}

pub open spec fn sct_header_name(line: Seq<u8>) -> Seq<u8> {
    line.subrange(1, line.len() - 1)
}

/// Index of the first section named `nm`, or `ss.len()` if there is none.
pub open spec fn find_sec(ss: Seq<SectionModel>, nm: Seq<u8>) -> int
    decreases ss.len(),
{
    if ss.len() == 0 {
        0
    } else if ss[0].name == nm {
        0
    } else {
        1 + find_sec(ss.drop_first(), nm)
    }
}

pub proof fn lemma_find_sec(ss: Seq<SectionModel>, nm: Seq<u8>)
    ensures
        0 <= find_sec(ss, nm) <= ss.len(),
        find_sec(ss, nm) < ss.len() ==> ss[find_sec(ss, nm)].name == nm,
        forall|j: int| 0 <= j < find_sec(ss, nm) ==> ss[j].name != nm,
    decreases ss.len(),
{
    if ss.len() > 0 && ss[0].name != nm {
        lemma_find_sec(ss.drop_first(), nm);
        let k = find_sec(ss, nm);
        if k < ss.len() {
            assert(ss.drop_first()[k - 1] == ss[k]);
        }
        assert forall|j: int| 0 <= j < k implies ss[j].name != nm by {
            if j > 0 {
                assert(ss.drop_first()[j - 1] == ss[j]);
            }
        }
    }
}

pub proof fn lemma_find_sec_at(ss: Seq<SectionModel>, nm: Seq<u8>, k: int)
    requires
        0 <= k < ss.len(),
        ss[k].name == nm,
        forall|j: int| 0 <= j < k ==> ss[j].name != nm,
    ensures
        find_sec(ss, nm) == k,
{
    lemma_find_sec(ss, nm);
}

pub proof fn lemma_find_sec_none(ss: Seq<SectionModel>, nm: Seq<u8>)
    requires
        forall|j: int| 0 <= j < ss.len() ==> ss[j].name != nm,
    ensures
        find_sec(ss, nm) == ss.len(),
{
    lemma_find_sec(ss, nm);
}

pub proof fn lemma_find_sec_push(ss: Seq<SectionModel>, s: SectionModel, nm: Seq<u8>)
    ensures
        find_sec(ss.push(s), nm) == if find_sec(ss, nm) < ss.len() {
            find_sec(ss, nm)
        } else if s.name == nm {
            ss.len() as int
        } else {
            ss.len() as int + 1
        },
{
    lemma_find_sec(ss, nm);
    lemma_find_sec(ss.push(s), nm);
    let f = find_sec(ss, nm);
    let g = find_sec(ss.push(s), nm);
    assert forall|j: int| 0 <= j < ss.len() implies ss.push(s)[j] == ss[j] by {}
    assert(ss.push(s)[ss.len() as int] == s);
    if f < ss.len() {
        if g < f {
            assert(ss[g].name == nm);
        }
        if g > f {
            assert(ss.push(s)[f].name == nm);
        }
    } else {
        if s.name == nm {
            if g < ss.len() {
                assert(ss[g].name == nm);
            }
        } else {
            if g <= ss.len() {
                assert(g < ss.push(s).len() && ss.push(s)[g].name == nm);
            }
        }
    }
}

pub proof fn lemma_find_sec_same_names(a: Seq<SectionModel>, b: Seq<SectionModel>, nm: Seq<u8>)
    requires
        a.len() == b.len(),
        forall|m: int| 0 <= m < a.len() ==> b[m].name == a[m].name,
    ensures
        find_sec(b, nm) == find_sec(a, nm),
{
    lemma_find_sec(a, nm);
    lemma_find_sec(b, nm);
    let f = find_sec(a, nm);
    let g = find_sec(b, nm);
    if g < f {
        assert(b[g].name == nm);
        assert(a[g].name == nm);
    }
    if f < g {
        assert(a[f].name == nm);
        assert(b[f].name == nm);
    }
}

/// One line of the parse: a header line opens (and, if new, registers) its
/// section; any other line joins the open section's body, or is dropped
/// when no section is open.  A header with an empty name registers the
/// section but leaves no section open.
pub open spec fn sct_step(
    acc: Seq<SectionModel>,
    cur: Option<int>,
    line: Seq<u8>,
) -> (Seq<SectionModel>, Option<int>) {
    if is_sct_header(line) {
        let nm = sct_header_name(line);
        let acc2 = if find_sec(acc, nm) < acc.len() {
            acc
        } else {
            acc.push(SectionModel { name: nm, body: Seq::empty() })
        };
        let cur2 = if nm.len() == 0 {
            Option::None
        } else {
            Option::Some(find_sec(acc2, nm))
        };
        (acc2, cur2)
    } else {
        match cur {
            Option::Some(i) => (
                acc.update(i, SectionModel { name: acc[i].name, body: acc[i].body.push(line) }),
                cur,
            ),
            Option::None => (acc, cur),
        }
    }
}

pub open spec fn sct_parse_rec(
    lines: Seq<Seq<u8>>,
    k: int,
    acc: Seq<SectionModel>,
    cur: Option<int>,
) -> Seq<SectionModel>
    decreases lines.len() - k,
{
    if k < 0 || k >= lines.len() {
        acc
    } else {
        let st = sct_step(acc, cur, lines[k]);
        sct_parse_rec(lines, k + 1, st.0, st.1)
    }
}

/// The sections of a bracket-section document, in order of first appearance.
pub open spec fn spec_sct_parse(t: Seq<u8>) -> Seq<SectionModel> {
    sct_parse_rec(spec_sct_lines(t), 0, Seq::empty(), Option::None)
}

/// One merge step: the remote section's body is appended to the local
/// section of the same name, or the whole section is added at the end.
pub open spec fn sct_merge_step(acc: Seq<SectionModel>, r: SectionModel) -> Seq<SectionModel> {
    let i = find_sec(acc, r.name);
    if i < acc.len() {
        acc.update(i, SectionModel { name: acc[i].name, body: acc[i].body + r.body })
    } else {
        acc.push(r)
    }
}

pub open spec fn sct_merge_rec(acc: Seq<SectionModel>, rs: Seq<SectionModel>, k: int) -> Seq<
    SectionModel,
>
    decreases rs.len() - k,
{
    if k < 0 || k >= rs.len() {
        acc
    } else {
        sct_merge_rec(sct_merge_step(acc, rs[k]), rs, k + 1)
    }
}

pub open spec fn spec_sct_merge_secs(l: Seq<SectionModel>, r: Seq<SectionModel>) -> Seq<
    SectionModel,
> {
    sct_merge_rec(l, r, 0)
}

/// Serialisation of a section body: each line followed by one line feed.
pub open spec fn render_body(body: Seq<Seq<u8>>) -> Seq<u8>
    decreases body.len(),
{
    if body.len() == 0 {
        Seq::empty()
    } else {
        body.first() + seq![10u8] + render_body(body.drop_first())
    }
}

pub open spec fn render_sec(s: SectionModel) -> Seq<u8> {
    seq![91u8] + s.name + seq![93u8, 10u8] + render_body(s.body)
}

pub open spec fn render_secs(ss: Seq<SectionModel>) -> Seq<u8>
    decreases ss.len(),
{
    if ss.len() == 0 {
        Seq::empty()
    } else {
        render_sec(ss.first()) + render_secs(ss.drop_first())
    }
}

/// The whole bracket merge: parse both documents, merge the remote sections
/// into the local ones, and serialise in local order with new sections last.
pub open spec fn spec_sct_merge(local: Seq<u8>, remote: Seq<u8>) -> Seq<u8> {
    render_secs(spec_sct_merge_secs(spec_sct_parse(local), spec_sct_parse(remote)))
}

fn find_section(secs: &Vec<Section>, name: &[u8]) -> (i: usize)
    ensures
        i as int == find_sec(sec_views(secs@), name@),
{
    let mut i: usize = 0;
    while i < secs.len()
        invariant
            i <= secs.len(),
            forall|j: int| 0 <= j < i ==> sec_views(secs@)[j].name != name@,
        decreases secs.len() - i,
    {
        if bytes_eq(secs[i].name.as_slice(), name) {
            proof {
                assert(sec_views(secs@)[i as int].name == name@);
                lemma_find_sec_at(sec_views(secs@), name@, i as int);
            }
            return i;
        }
        i = i + 1;
    }
    proof {
        lemma_find_sec_none(sec_views(secs@), name@);
    }
    i
}

fn append_body_line(secs: &mut Vec<Section>, i: usize, line: Vec<u8>)
    requires
        i < old(secs).len(),
    ensures
        sec_views(final(secs)@) == sec_views(old(secs)@).update(
            i as int,
            SectionModel {
                name: sec_views(old(secs)@)[i as int].name,
                body: sec_views(old(secs)@)[i as int].body.push(line@),
            },
        ),
{
    let ghost orig = secs@;
    let mut sec = secs.remove(i);
    let ghost b0 = sec.body@;
    sec.body.push(line);
    proof {
        assert(views(b0.push(line)) =~= views(b0).push(line@));
    }
    secs.insert(i, sec);
    proof {
        assert(sec_views(secs@) =~~= sec_views(orig).update(
            i as int,
            SectionModel {
                name: sec_views(orig)[i as int].name,
                body: sec_views(orig)[i as int].body.push(line@),
            },
        ));
    }
}

fn clone_lines(src: &Vec<Vec<u8>>) -> (r: Vec<Vec<u8>>)
    ensures
        views(r@) == views(src@),
{
    let mut r: Vec<Vec<u8>> = Vec::new();
    let mut j: usize = 0;
    while j < src.len()
        invariant
            j <= src.len(),
            views(r@) =~= views(src@).take(j as int),
        decreases src.len() - j,
    {
        let line = vstd::slice::slice_to_vec(src[j].as_slice());
        proof {
            assert(views(r@.push(line)) =~= views(r@).push(line@));
            assert(views(src@).take(j as int).push(views(src@)[j as int]) =~= views(src@).take(
                j + 1));
        }
        r.push(line);
        j = j + 1;
    }
    proof {
        assert(views(src@).take(src@.len() as int) =~= views(src@));
    }
    r
}

/// Parses a bracket-section document into its sections, in order of first
/// appearance; lines before the first header are dropped.
pub fn parse_sections(t: &[u8]) -> (r: Vec<Section>)
    ensures
        sec_views(r@) == spec_sct_parse(t@),
{
    let lines = sct_lines(t);
    let ghost ls = spec_sct_lines(t@);
    let mut acc: Vec<Section> = Vec::new();
    let mut cur: Option<usize> = None;
    let mut k: usize = 0;
    proof {
        assert(sec_views(acc@) =~= Seq::<SectionModel>::empty());
    }
    while k < lines.len()
        invariant
            k <= lines.len(),
            views(lines@) == ls,
            ls == spec_sct_lines(t@),
            match cur {
                Some(i) => i < acc.len(),
                None => true,
            },
            sct_parse_rec(
                ls,
                k as int,
                sec_views(acc@),
                match cur {
                    Some(i) => Option::Some(i as int),
                    None => Option::<int>::None,
                },
            ) == spec_sct_parse(t@),
        decreases lines.len() - k,
    {
        let ghost acc0 = sec_views(acc@);
        let ghost cur0: Option<int> = match cur {
            Some(i) => Option::Some(i as int),
            None => Option::None,
        };
        let line = &lines[k];
        proof {
            assert(line@ == ls[k as int]);
        }
        let n = line.len();
        if n >= 2 && line[0] == 91 && line[n - 1] == 93 {
            let name = vstd::slice::slice_to_vec(
                vstd::slice::slice_subrange(line.as_slice(), 1, n - 1),
            );
            proof {
                assert(name@ == sct_header_name(line@));
            }
            let idx = find_section(&acc, name.as_slice());
            let tgt: usize;
            if idx < acc.len() {
                tgt = idx;
            } else {
                tgt = acc.len();
                let ghost pushed = SectionModel { name: name@, body: Seq::empty() };
                let sec = Section { name, body: Vec::new() };
                proof {
                    assert(views(sec.body@) =~= Seq::<Seq<u8>>::empty());
                    assert(sec@ =~= pushed);
                    assert(sec_views(acc@.push(sec)) =~= acc0.push(pushed));
                    lemma_find_sec_push(acc0, pushed, pushed.name);
                }
                acc.push(sec);
                proof {
                    assert(find_sec(sec_views(acc@), pushed.name) == acc0.len());
                }
            }
            if n == 2 {
                cur = None;
            } else {
                cur = Some(tgt);
            }
            proof {
                let st = sct_step(acc0, cur0, ls[k as int]);
                assert(st.0 == sec_views(acc@));
                assert(st.1 == match cur {
                    Some(i) => Option::Some(i as int),
                    None => Option::<int>::None,
                });
            }
        } else {
            match cur {
                Some(i) => {
                    let line_copy = vstd::slice::slice_to_vec(lines[k].as_slice());
                    append_body_line(&mut acc, i, line_copy);
                    proof {
                        let st = sct_step(acc0, cur0, ls[k as int]);
                        assert(st.0 =~= sec_views(acc@));
                    }
                },
                None => {},
            }
        }
        k = k + 1;
    }
    acc
}

/// Merges the remote sections into the local ones, in remote order.
pub fn merge_sections(secs: &mut Vec<Section>, rsecs: &Vec<Section>)
    ensures
        sec_views(final(secs)@) == spec_sct_merge_secs(sec_views(old(secs)@), sec_views(rsecs@)),
{
    let ghost l0 = sec_views(old(secs)@);
    let ghost rs = sec_views(rsecs@);
    let mut k: usize = 0;
    while k < rsecs.len()
        invariant
            k <= rsecs.len(),
            rs == sec_views(rsecs@),
            sct_merge_rec(sec_views(secs@), rs, k as int) == spec_sct_merge_secs(l0, rs),
        decreases rsecs.len() - k,
    {
        let ghost acc0 = sec_views(secs@);
        let idx = find_section(secs, rsecs[k].name.as_slice());
        proof {
            assert(rs[k as int].name == rsecs@[k as int].name@);
        }
        if idx < secs.len() {
            extend_body(secs, idx, &rsecs[k].body);
            proof {
                assert(sct_merge_step(acc0, rs[k as int]) =~= sec_views(secs@));
            }
        } else {
            let sec = Section {
                name: vstd::slice::slice_to_vec(rsecs[k].name.as_slice()),
                body: clone_lines(&rsecs[k].body),
            };
            proof {
                assert(sec@ =~= rs[k as int]);
                assert(sec_views(secs@.push(sec)) =~= acc0.push(sec@));
            }
            secs.push(sec);
        }
        k = k + 1;
    }
}

fn extend_body(secs: &mut Vec<Section>, i: usize, src: &Vec<Vec<u8>>)
    requires
        i < old(secs).len(),
    ensures
        sec_views(final(secs)@) == sec_views(old(secs)@).update(
            i as int,
            SectionModel {
                name: sec_views(old(secs)@)[i as int].name,
                body: sec_views(old(secs)@)[i as int].body + views(src@),
            },
        ),
{
    let ghost orig = secs@;
    let mut sec = secs.remove(i);
    let ghost b0 = views(sec.body@);
    let mut j: usize = 0;
    while j < src.len()
        invariant
            j <= src.len(),
            sec.name == orig[i as int].name,
            views(sec.body@) =~= b0 + views(src@).take(j as int),
        decreases src.len() - j,
    {
        let line = vstd::slice::slice_to_vec(src[j].as_slice());
        proof {
            assert(views(sec.body@.push(line)) =~= views(sec.body@).push(line@));
            assert((b0 + views(src@).take(j as int)).push(views(src@)[j as int]) =~= b0 + views(
                src@,
            ).take(j + 1));
        }
        sec.body.push(line);
        j = j + 1;
    }
    proof {
        assert(views(src@).take(src@.len() as int) =~= views(src@));
    }
    secs.insert(i, sec);
    proof {
        assert(secs@ =~= orig.update(i as int, sec));
        assert(sec@.body =~= sec_views(orig)[i as int].body + views(src@));
        assert(sec@.name == sec_views(orig)[i as int].name);
        assert(sec_views(secs@) =~~= sec_views(orig).update(
            i as int,
            SectionModel {
                name: sec_views(orig)[i as int].name,
                body: sec_views(orig)[i as int].body + views(src@),
            },
        ));
    }
}

/// Serialises sections back to text: each header line, then each body line,
/// every line with a single trailing line feed.
pub fn render_sections(secs: &Vec<Section>) -> (out: Vec<u8>)
    ensures
        out@ == render_secs(sec_views(secs@)),
{
    let ghost ss = sec_views(secs@);
    let mut out: Vec<u8> = Vec::new();
    let mut k: usize = 0;
    proof {
        assert(ss.skip(0) =~= ss);
    }
    while k < secs.len()
        invariant
            k <= secs.len(),
            ss == sec_views(secs@),
            render_secs(ss) == out@ + render_secs(ss.skip(k as int)),
        decreases secs.len() - k,
    {
        proof {
            let suf = ss.skip(k as int);
            assert(suf.first() == ss[k as int]);
            assert(suf.drop_first() =~= ss.skip(k + 1));
            assert(render_secs(suf) == render_sec(ss[k as int]) + render_secs(ss.skip(k + 1)));
        }
        let ghost out0 = out@;
        out.push(91);
        push_bytes(&mut out, secs[k].name.as_slice());
        out.push(93);
        out.push(10);
        let body = &secs[k].body;
        let ghost bs = ss[k as int].body;
        let mut j: usize = 0;
        proof {
            assert(out@ =~= out0 + seq![91u8] + ss[k as int].name + seq![93u8, 10u8]);
            assert(bs.skip(0) =~= bs);
            assert(bs == views(body@));
            assert(out@ + render_body(bs) + render_secs(ss.skip(k as int + 1)) =~= out0
                + render_secs(ss.skip(k as int)));
        }
        while j < body.len()
            invariant
                j <= body.len(),
                bs == views(body@),
                render_secs(ss) == out@ + render_body(bs.skip(j as int)) + render_secs(
                    ss.skip(k as int + 1),
                ),
            decreases body.len() - j,
        {
            proof {
                let bsuf = bs.skip(j as int);
                assert(bsuf.first() == bs[j as int]);
                assert(bsuf.drop_first() =~= bs.skip(j + 1));
                assert(render_body(bsuf) == bs[j as int] + seq![10u8] + render_body(
                    bs.skip(j + 1)));
            }
            push_bytes(&mut out, body[j].as_slice());
            out.push(10);
            proof {
                assert(out@ + render_body(bs.skip(j + 1)) + render_secs(ss.skip(k as int + 1))
                    =~= render_secs(ss));
            }
            j = j + 1;
        }
        proof {
            assert(render_body(bs.skip(body@.len() as int)) =~= Seq::<u8>::empty());
            assert(out@ + Seq::<u8>::empty() + render_secs(ss.skip(k as int + 1)) =~= out@
                + render_secs(ss.skip(k as int + 1)));
        }
        k = k + 1;
    }
    proof {
        assert(render_secs(ss.skip(ss.len() as int)) =~= Seq::<u8>::empty());
        assert(out@ + Seq::<u8>::empty() =~= out@);
    }
    out
}

proof fn lemma_merge_rec_order(acc: Seq<SectionModel>, rs: Seq<SectionModel>, k: int)
    ensures
        sct_merge_rec(acc, rs, k).len() >= acc.len(),
        forall|i: int|
            0 <= i < acc.len() ==> #[trigger] sct_merge_rec(acc, rs, k)[i].name == acc[i].name,
    decreases rs.len() - k,
{
    if 0 <= k < rs.len() {
        lemma_find_sec(acc, rs[k].name);
        let acc2 = sct_merge_step(acc, rs[k]);
        lemma_merge_rec_order(acc2, rs, k + 1);
    }
}

proof fn lemma_merge_rec_untouched(acc: Seq<SectionModel>, rs: Seq<SectionModel>, k: int, i: int)
    requires
        0 <= i < acc.len(),
        forall|j: int| k <= j < rs.len() ==> rs[j].name != acc[i].name,
    ensures
        sct_merge_rec(acc, rs, k).len() >= acc.len(),
        sct_merge_rec(acc, rs, k)[i] == acc[i],
    decreases rs.len() - k,
{
    if 0 <= k < rs.len() {
        lemma_find_sec(acc, rs[k].name);
        let acc2 = sct_merge_step(acc, rs[k]);
        assert(acc2[i] == acc[i]);
        lemma_merge_rec_untouched(acc2, rs, k + 1, i);
    }
}

proof fn lemma_merge_rec_append(
    acc: Seq<SectionModel>,
    rs: Seq<SectionModel>,
    k: int,
    i: int,
    j: int,
)
    requires
        0 <= i < acc.len(),
        find_sec(acc, acc[i].name) == i,
        0 <= k <= j < rs.len(),
        rs[j].name == acc[i].name,
        forall|m: int| k <= m < rs.len() && m != j ==> rs[m].name != acc[i].name,
    ensures
        sct_merge_rec(acc, rs, k).len() >= acc.len(),
        sct_merge_rec(acc, rs, k)[i].name == acc[i].name,
        sct_merge_rec(acc, rs, k)[i].body == acc[i].body + rs[j].body,
    decreases rs.len() - k,
{
    lemma_find_sec(acc, rs[k].name);
    let acc2 = sct_merge_step(acc, rs[k]);
    if k == j {
        assert(acc2[i].body == acc[i].body + rs[j].body);
        assert(acc2[i].name == acc[i].name);
        lemma_merge_rec_untouched(acc2, rs, k + 1, i);
    } else {
        let i0 = find_sec(acc, rs[k].name);
        if i0 < acc.len() {
            assert(acc2[i] == acc[i]);
            lemma_find_sec_same_names(acc, acc2, acc[i].name);
        } else {
            assert(acc2[i] == acc[i]);
            lemma_find_sec_push(acc, rs[k], acc[i].name);
        }
        lemma_merge_rec_append(acc2, rs, k + 1, i, j);
    }
}

proof fn lemma_merge_rec_new(acc: Seq<SectionModel>, rs: Seq<SectionModel>, k: int, j: int)
    requires
        find_sec(acc, rs[j].name) == acc.len(),
        0 <= k <= j < rs.len(),
        forall|m: int| k <= m < rs.len() && m != j ==> rs[m].name != rs[j].name,
    ensures
        sct_merge_rec(acc, rs, k).len() >= acc.len(),
        exists|m: int|
            acc.len() <= m < sct_merge_rec(acc, rs, k).len() && sct_merge_rec(acc, rs, k)[m]
                == rs[j],
    decreases rs.len() - k,
{
    lemma_find_sec(acc, rs[k].name);
    let acc2 = sct_merge_step(acc, rs[k]);
    if k == j {
        assert(acc2 == acc.push(rs[j]));
        assert(acc2[acc.len() as int] == rs[j]);
        lemma_merge_rec_untouched(acc2, rs, k + 1, acc.len() as int);
        let res = sct_merge_rec(acc, rs, k);
        assert(res[acc.len() as int] == rs[j]);
    } else {
        let i0 = find_sec(acc, rs[k].name);
        if i0 < acc.len() {
            lemma_find_sec_same_names(acc, acc2, rs[j].name);
        } else {
            lemma_find_sec_push(acc, rs[k], rs[j].name);
        }
        lemma_merge_rec_new(acc2, rs, k + 1, j);
        let res = sct_merge_rec(acc, rs, k);
        assert(sct_merge_rec(acc2, rs, k + 1) == res);
        let m = choose|m: int| acc2.len() <= m < res.len() && res[m] == rs[j];
        assert(acc.len() <= m < res.len() && res[m] == rs[j]);
    }
}

proof fn lemma_parse_rec_unique(
    lines: Seq<Seq<u8>>,
    k: int,
    acc: Seq<SectionModel>,
    cur: Option<int>,
)
    requires
        match cur {
            Option::Some(i) => 0 <= i < acc.len(),
            Option::None => true,
        },
        forall|x: int, y: int|
            #![trigger acc[x].name, acc[y].name]
            0 <= x < y < acc.len() ==> acc[x].name != acc[y].name,
    ensures
        forall|x: int, y: int|
            #![trigger sct_parse_rec(lines, k, acc, cur)[x].name, sct_parse_rec(lines, k, acc, cur)[y].name]
            0 <= x < y < sct_parse_rec(lines, k, acc, cur).len() ==> sct_parse_rec(
                lines,
                k,
                acc,
                cur,
            )[x].name != sct_parse_rec(lines, k, acc, cur)[y].name,
    decreases lines.len() - k,
{
    if 0 <= k < lines.len() {
        let st = sct_step(acc, cur, lines[k]);
        if is_sct_header(lines[k]) {
            lemma_find_sec(acc, sct_header_name(lines[k]));
        }
        assert forall|x: int, y: int|
            #![trigger st.0[x].name, st.0[y].name]
            0 <= x < y < st.0.len() implies st.0[x].name != st.0[y].name by {
            if is_sct_header(lines[k]) {
                let nm = sct_header_name(lines[k]);
                if find_sec(acc, nm) < acc.len() {
                    assert(st.0[x].name == acc[x].name && st.0[y].name == acc[y].name);
                } else {
                    lemma_find_sec_push(
                        acc,
                        SectionModel { name: nm, body: Seq::empty() },
                        nm,
                    );
                    if y < acc.len() {
                        assert(st.0[x] == acc[x] && st.0[y] == acc[y]);
                    } else {
                        assert(st.0[x] == acc[x]);
                        assert(st.0[y].name == nm);
                        assert(acc[x].name != nm);
                    }
                }
            } else {
                assert(st.0[x].name == acc[x].name && st.0[y].name == acc[y].name);
            }
        }
        if is_sct_header(lines[k]) {
            let nm = sct_header_name(lines[k]);
            if find_sec(acc, nm) >= acc.len() {
                lemma_find_sec_push(acc, SectionModel { name: nm, body: Seq::empty() }, nm);
            }
        }
        lemma_parse_rec_unique(lines, k + 1, st.0, st.1);
        let res = sct_parse_rec(lines, k, acc, cur);
        assert(res == sct_parse_rec(lines, k + 1, st.0, st.1));
        assert forall|x: int, y: int|
            #![trigger res[x].name, res[y].name]
            0 <= x < y < res.len() implies res[x].name != res[y].name by {
            assert(res[x] == sct_parse_rec(lines, k + 1, st.0, st.1)[x]);
            assert(res[y] == sct_parse_rec(lines, k + 1, st.0, st.1)[y]);
        }
    }
}

/// Parsing never yields two sections of the same name, so every section of
/// a parsed document is the first of its name.
pub proof fn lemma_parse_names_unique(t: Seq<u8>)
    ensures
        forall|i: int|
            0 <= i < spec_sct_parse(t).len() ==> #[trigger] find_sec(
                spec_sct_parse(t),
                spec_sct_parse(t)[i].name,
            ) == i,
{
    lemma_parse_rec_unique(spec_sct_lines(t), 0, Seq::empty(), Option::None);
    let ps = spec_sct_parse(t);
    assert forall|i: int|
        0 <= i < ps.len() implies #[trigger] find_sec(ps, ps[i].name) == i by {
        lemma_find_sec(ps, ps[i].name);
    }
}

/// Order preservation: merging never moves or renames a local section; the
/// merged list only ever extends the local one at the end.
pub proof fn lemma_bracket_merge_preserves_order(l: Seq<SectionModel>, r: Seq<SectionModel>)
    ensures
        spec_sct_merge_secs(l, r).len() >= l.len(),
        forall|i: int|
            0 <= i < l.len() ==> #[trigger] spec_sct_merge_secs(l, r)[i].name == l[i].name,
{
    lemma_merge_rec_order(l, r, 0);
}

/// Round-trip of untouched sections: a local section whose name appears in
/// no remote section comes out of the merge exactly as it went in.
pub proof fn lemma_bracket_merge_keeps_untouched(
    l: Seq<SectionModel>,
    r: Seq<SectionModel>,
    i: int,
)
    requires
        0 <= i < l.len(),
        forall|j: int| 0 <= j < r.len() ==> r[j].name != l[i].name,
    ensures
        spec_sct_merge_secs(l, r)[i] == l[i],
{
    lemma_merge_rec_untouched(l, r, 0, i);
}

/// Append property: when the remote document has exactly one section of a
/// local section's name, the merge appends its body lines after the local
/// ones, in place.
pub proof fn lemma_bracket_merge_appends(
    l: Seq<SectionModel>,
    r: Seq<SectionModel>,
    i: int,
    j: int,
)
    requires
        0 <= i < l.len(),
        find_sec(l, l[i].name) == i,
        0 <= j < r.len(),
        r[j].name == l[i].name,
        forall|m: int| 0 <= m < r.len() && m != j ==> r[m].name != l[i].name,
    ensures
        spec_sct_merge_secs(l, r)[i].name == l[i].name,
        spec_sct_merge_secs(l, r)[i].body == l[i].body + r[j].body,
{
    lemma_merge_rec_append(l, r, 0, i, j);
}

/// New-section property: a remote section whose name no local section bears
/// (and which is unique in the remote document) is appended after all
/// original sections, body verbatim.
pub proof fn lemma_bracket_merge_appends_new_section(
    l: Seq<SectionModel>,
    r: Seq<SectionModel>,
    j: int,
)
    requires
        0 <= j < r.len(),
        forall|i: int| 0 <= i < l.len() ==> l[i].name != r[j].name,
        forall|m: int| 0 <= m < r.len() && m != j ==> r[m].name != r[j].name,
    ensures
        exists|m: int|
            l.len() <= m < spec_sct_merge_secs(l, r).len() && spec_sct_merge_secs(l, r)[m] == r[j],
{
    lemma_find_sec_none(l, r[j].name);
    lemma_merge_rec_new(l, r, 0, j);
    let m = choose|m: int|
        l.len() <= m < sct_merge_rec(l, r, 0).len() && sct_merge_rec(l, r, 0)[m] == r[j];
    assert(l.len() <= m < spec_sct_merge_secs(l, r).len() && spec_sct_merge_secs(l, r)[m] == r[j]);
}

/// Serialisation is per section: the output splits at any section index
/// into the rendering of the sections before it and the rendering of the
/// rest.
pub proof fn lemma_render_secs_split(ss: Seq<SectionModel>, k: int)
    requires
        0 <= k <= ss.len(),
    ensures
        render_secs(ss) == render_secs(ss.take(k)) + render_secs(ss.skip(k)),
    decreases k,
{
    if k == 0 {
        assert(ss.take(0) =~= Seq::<SectionModel>::empty());
        assert(ss.skip(0) =~= ss);
        assert(render_secs(ss.take(0)) + render_secs(ss) =~= render_secs(ss));
    } else {
        let df = ss.drop_first();
        lemma_render_secs_split(df, k - 1);
        assert(df.take(k - 1) =~= ss.take(k).drop_first());
        assert(df.skip(k - 1) =~= ss.skip(k));
        assert(render_secs(ss) == render_sec(ss[0]) + render_secs(df));
        assert(render_secs(ss.take(k)) == render_sec(ss[0]) + render_secs(ss.take(k).drop_first()));
        assert(render_sec(ss[0]) + (render_secs(df.take(k - 1)) + render_secs(df.skip(k - 1)))
            =~= (render_sec(ss[0]) + render_secs(df.take(k - 1))) + render_secs(df.skip(k - 1)));
    }
}

/// New-section property at the byte level: the block serialised for the
/// new section is exactly the remote section's rendering, and it stands
/// after the blocks of all sections at lower index (all local-order
/// sections among them).
pub proof fn lemma_bracket_merge_new_section_rendered(
    l: Seq<SectionModel>,
    r: Seq<SectionModel>,
    j: int,
)
    requires
        0 <= j < r.len(),
        forall|i: int| 0 <= i < l.len() ==> l[i].name != r[j].name,
        forall|m: int| 0 <= m < r.len() && m != j ==> r[m].name != r[j].name,
    ensures
        exists|m: int|
            l.len() <= m < spec_sct_merge_secs(l, r).len() && spec_sct_merge_secs(l, r)[m] == r[j]
                && render_secs(spec_sct_merge_secs(l, r)) == render_secs(
                spec_sct_merge_secs(l, r).take(m),
            ) + render_sec(r[j]) + render_secs(spec_sct_merge_secs(l, r).skip(m + 1)),
{
    lemma_bracket_merge_appends_new_section(l, r, j);
    let res = spec_sct_merge_secs(l, r);
    let m = choose|m: int| l.len() <= m < res.len() && res[m] == r[j];
    lemma_render_secs_split(res, m);
    assert(res.skip(m).first() == res[m]);
    assert(res.skip(m).drop_first() =~= res.skip(m + 1));
    assert(render_secs(res.skip(m)) == render_sec(r[j]) + render_secs(res.skip(m + 1)));
    assert(render_secs(res.take(m)) + (render_sec(r[j]) + render_secs(res.skip(m + 1)))
        =~= (render_secs(res.take(m)) + render_sec(r[j])) + render_secs(res.skip(m + 1)));
    assert(l.len() <= m < res.len() && res[m] == r[j] && render_secs(res) == render_secs(
        res.take(m),
    ) + render_sec(r[j]) + render_secs(res.skip(m + 1)));
}

/// Round-trip at the byte level: the block serialised for an untouched
/// local section is exactly that section's own rendering, in place.
pub proof fn lemma_bracket_merge_untouched_rendered(
    l: Seq<SectionModel>,
    r: Seq<SectionModel>,
    i: int,
)
    requires
        0 <= i < l.len(),
        forall|j: int| 0 <= j < r.len() ==> r[j].name != l[i].name,
    ensures
        render_secs(spec_sct_merge_secs(l, r)) == render_secs(spec_sct_merge_secs(l, r).take(i))
            + render_sec(l[i]) + render_secs(spec_sct_merge_secs(l, r).skip(i + 1)),
{
    lemma_bracket_merge_keeps_untouched(l, r, i);
    lemma_bracket_merge_preserves_order(l, r);
    let res = spec_sct_merge_secs(l, r);
    lemma_render_secs_split(res, i);
    assert(res.skip(i).first() == res[i]);
    assert(res.skip(i).drop_first() =~= res.skip(i + 1));
    assert(render_secs(res.skip(i)) == render_sec(l[i]) + render_secs(res.skip(i + 1)));
    assert(render_secs(res.take(i)) + (render_sec(l[i]) + render_secs(res.skip(i + 1)))
        =~= (render_secs(res.take(i)) + render_sec(l[i])) + render_secs(res.skip(i + 1)));
}

/// Idempotence boundary: the bracket merge does not deduplicate, so merging
/// the same remote document twice appends its body lines twice.
pub proof fn lemma_bracket_merge_twice_duplicates(
    l: Seq<SectionModel>,
    r: Seq<SectionModel>,
    i: int,
    j: int,
)
    requires
        0 <= i < l.len(),
        find_sec(l, l[i].name) == i,
        0 <= j < r.len(),
        r[j].name == l[i].name,
        forall|m: int| 0 <= m < r.len() && m != j ==> r[m].name != l[i].name,
    ensures
        spec_sct_merge_secs(spec_sct_merge_secs(l, r), r)[i].body == l[i].body + r[j].body
            + r[j].body,
{
    lemma_bracket_merge_appends(l, r, i, j);
    lemma_bracket_merge_preserves_order(l, r);
    let m1 = spec_sct_merge_secs(l, r);
    lemma_find_sec(l, l[i].name);
    assert forall|j2: int| 0 <= j2 < i implies m1[j2].name != l[i].name by {
        assert(m1[j2].name == l[j2].name);
    }
    lemma_find_sec_at(m1, l[i].name, i);
    lemma_merge_rec_append(m1, r, 0, i, j);
}

/// Merges a remote bracket-section document into a local one and returns the
/// merged document.
pub fn install_content(local: &[u8], remote: &[u8]) -> (merged: Vec<u8>)
    ensures
        merged@ == spec_sct_merge(local@, remote@),
{
    let mut secs = parse_sections(local);
    let rsecs = parse_sections(remote);
    merge_sections(&mut secs, &rsecs);
    render_sections(&secs)
}

} // verus!
