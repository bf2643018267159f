//! The installation probe: extracts identifying names from a remote
//! bracket-section document (geo area names from `[GEO]`, region names from
//! `[REGIONS]`) and reports whether any of them already occurs as a literal
//! substring of the local document.

use crate::text::{
    bytes_eq, rtrim_slice, sct_lines, spec_rtrim, spec_sct_lines, spec_trim, trim_slice, views,
};
use vstd::prelude::*;

verus! {

/// The line `[GEO]`.
pub open spec fn is_geo_header(l: Seq<u8>) -> bool {
    l.len() == 5 && l[0] == 91 && l[1] == 71 && l[2] == 69 && l[3] == 79 && l[4] == 93
}

/// The line `[REGIONS]`.
pub open spec fn is_regions_header(l: Seq<u8>) -> bool {
    l.len() == 9 && l[0] == 91 && l[1] == 82 && l[2] == 69 && l[3] == 71 && l[4] == 73 && l[5]
        == 79 && l[6] == 78 && l[7] == 83 && l[8] == 93
}

/// The token `REGIONNAME` as a line prefix.
pub open spec fn has_regionname_prefix(l: Seq<u8>) -> bool {
    l.len() >= 10 && l[0] == 82 && l[1] == 69 && l[2] == 71 && l[3] == 73 && l[4] == 79 && l[5]
        == 78 && l[6] == 78 && l[7] == 65 && l[8] == 77 && l[9] == 69
}

/// A coordinate start: `N` or `S` immediately followed by an ASCII digit.
pub open spec fn marker_at(l: Seq<u8>, i: int) -> bool {
    (l[i] == 78 || l[i] == 83) && 48 <= l[i + 1] <= 57
}

/// Index of the first coordinate start in `l`, or `l.len()` if none.
pub open spec fn find_marker(l: Seq<u8>, i: int) -> int
    decreases l.len() - i,
{
    if i < 0 || i + 1 >= l.len() {
        l.len() as int
    } else if marker_at(l, i) {
        i
    } else {
        find_marker(l, i + 1)
    }
}

/// One line of the geo scan.  A line opening with `[` (after right-trim)
/// switches the in-`[GEO]` state; inside `[GEO]`, a non-blank line with a
/// coordinate start contributes the trimmed text before it, first
/// occurrence only.
pub open spec fn geo_step(names: Seq<Seq<u8>>, in_geo: bool, line: Seq<u8>) -> (
    Seq<Seq<u8>>,
    bool,
) {
    let l = spec_rtrim(line);
    if l.len() > 0 && l[0] == 91 {
        (names, is_geo_header(l))
    } else if in_geo && spec_trim(l).len() > 0 {
        let m = find_marker(l, 0);
        if m < l.len() {
            let nm = spec_trim(l.take(m));
            if nm.len() > 0 && !names.contains(nm) {
                (names.push(nm), in_geo)
            } else {
                (names, in_geo)
            }
        } else {
            (names, in_geo)
        }
    } else {
        (names, in_geo)
    }
}

pub open spec fn geo_rec(lines: Seq<Seq<u8>>, k: int, names: Seq<Seq<u8>>, in_geo: bool) -> Seq<
    Seq<u8>,
>
    decreases lines.len() - k,
{
    if k < 0 || k >= lines.len() {
        names
    } else {
        let st = geo_step(names, in_geo, lines[k]);
        geo_rec(lines, k + 1, st.0, st.1)
    }
}

/// The de-duplicated geo area names of the `[GEO]` section, in first-seen
/// order.
pub open spec fn spec_geo_names(t: Seq<u8>) -> Seq<Seq<u8>> {
    geo_rec(spec_sct_lines(t), 0, Seq::empty(), false)
}

/// One line of the region scan.  A line opening with `[` (after full trim)
/// switches the in-`[REGIONS]` state; inside it, a line whose trimmed form
/// starts with `REGIONNAME` contributes the trimmed remainder, first
/// occurrence only.
pub open spec fn region_step(names: Seq<Seq<u8>>, in_regions: bool, line: Seq<u8>) -> (
    Seq<Seq<u8>>,
    bool,
) {
    let tr = spec_trim(line);
    if tr.len() > 0 && tr[0] == 91 {
        (names, is_regions_header(tr))
    } else if in_regions && has_regionname_prefix(tr) {
        let nm = spec_trim(tr.skip(10));
        if nm.len() > 0 && !names.contains(nm) {
            (names.push(nm), in_regions)
        } else {
            (names, in_regions)
        }
    } else {
        (names, in_regions)
    }
}

pub open spec fn region_rec(lines: Seq<Seq<u8>>, k: int, names: Seq<Seq<u8>>, in_regions: bool) -> Seq<
    Seq<u8>,
>
    decreases lines.len() - k,
{
    if k < 0 || k >= lines.len() {
        names
    } else {
        let st = region_step(names, in_regions, lines[k]);
        region_rec(lines, k + 1, st.0, st.1)
    }
}

/// The de-duplicated region names of the `[REGIONS]` section, in first-seen
/// order.
pub open spec fn spec_region_names(t: Seq<u8>) -> Seq<Seq<u8>> {
    region_rec(spec_sct_lines(t), 0, Seq::empty(), false)
}

/// Literal substring containment.
pub open spec fn is_sub(hay: Seq<u8>, needle: Seq<u8>) -> bool {
    exists|i: int|
        0 <= i && i + needle.len() <= hay.len() && #[trigger] hay.subrange(
            i,
            i + needle.len() as int,
        ) == needle
}

/// Whether any identifying name of the remote update occurs in the local
/// document.
pub open spec fn spec_partially_installed(local: Seq<u8>, remote: Seq<u8>) -> bool {
    ||| exists|k: int|
        0 <= k < spec_geo_names(remote).len() && is_sub(local, spec_geo_names(remote)[k])
    ||| exists|k: int|
        0 <= k < spec_region_names(remote).len() && is_sub(local, spec_region_names(remote)[k])
}

fn find_marker_exec(l: &[u8]) -> (r: usize)
    ensures
        r as int == find_marker(l@, 0),
        r <= l@.len(),
{
    let n = l.len();
    let mut i: usize = 0;
    while n - i > 1
        invariant
            i <= n,
            n == l@.len(),
            find_marker(l@, 0) == find_marker(l@, i as int),
        decreases n - i,
    {
        if (l[i] == 78 || l[i] == 83) && 48 <= l[i + 1] && l[i + 1] <= 57 {
            return i;
        }
        i = i + 1;
    }
    n
}

fn contains_name(names: &Vec<Vec<u8>>, x: &[u8]) -> (r: bool)
    ensures
        r <==> views(names@).contains(x@),
{
    let mut i: usize = 0;
    while i < names.len()
        invariant
            i <= names.len(),
            forall|j: int| 0 <= j < i ==> views(names@)[j] != x@,
        decreases names.len() - i,
    {
        if bytes_eq(names[i].as_slice(), x) {
            proof {
                assert(views(names@)[i as int] == x@);
            }
            return true;
        }
        i = i + 1;
    }
    proof {
        assert forall|j: int| 0 <= j < views(names@).len() implies views(names@)[j] != x@ by {}
    }
    false
}

fn is_geo_header_exec(l: &[u8]) -> (r: bool)
    ensures
        r == is_geo_header(l@),
{
    l.len() == 5 && l[0] == 91 && l[1] == 71 && l[2] == 69 && l[3] == 79 && l[4] == 93
}

fn is_regions_header_exec(l: &[u8]) -> (r: bool)
    ensures
        r == is_regions_header(l@),
{
    l.len() == 9 && l[0] == 91 && l[1] == 82 && l[2] == 69 && l[3] == 71 && l[4] == 73 && l[5]
        == 79 && l[6] == 78 && l[7] == 83 && l[8] == 93
}

fn has_regionname_prefix_exec(l: &[u8]) -> (r: bool)
    ensures
        r == has_regionname_prefix(l@),
{
    l.len() >= 10 && l[0] == 82 && l[1] == 69 && l[2] == 71 && l[3] == 73 && l[4] == 79 && l[5]
        == 78 && l[6] == 78 && l[7] == 65 && l[8] == 77 && l[9] == 69
}

/// Extracts the geo area names of the remote document's `[GEO]` section:
/// for each non-blank body line with a coordinate start (`N` or `S` then a
/// digit), the trimmed text before it, de-duplicated, in first-seen order.
pub fn extract_geo_area_names(content: &[u8]) -> (r: Vec<Vec<u8>>)
    ensures
        views(r@) == spec_geo_names(content@),
{
    let lines = sct_lines(content);
    let ghost ls = spec_sct_lines(content@);
    let mut r: Vec<Vec<u8>> = Vec::new();
    let mut in_geo = false;
    let mut k: usize = 0;
    proof {
        assert(views(r@) =~= Seq::<Seq<u8>>::empty());
    }
    while k < lines.len()
        invariant
            k <= lines.len(),
            views(lines@) == ls,
            geo_rec(ls, k as int, views(r@), in_geo) == spec_geo_names(content@),
        decreases lines.len() - k,
    {
        let ghost names0 = views(r@);
        let ghost geo0 = in_geo;
        let l = rtrim_slice(lines[k].as_slice());
        proof {
            assert(lines@[k as int]@ == ls[k as int]);
            assert(l@ == spec_rtrim(ls[k as int]));
        }
        if l.len() > 0 && l[0] == 91 {
            in_geo = is_geo_header_exec(l);
        } else if in_geo && trim_slice(l).len() > 0 {
            let m = find_marker_exec(l);
            if m < l.len() {
                let nm = trim_slice(vstd::slice::slice_subrange(l, 0, m));
                if nm.len() > 0 && !contains_name(&r, nm) {
                    let nv = vstd::slice::slice_to_vec(nm);
                    proof {
                        assert(views(r@.push(nv)) =~= views(r@).push(nv@));
                    }
                    r.push(nv);
                }
            }
        }
        proof {
            let st = geo_step(names0, geo0, ls[k as int]);
            assert(st.0 =~= views(r@));
            assert(st.1 == in_geo);
        }
        k = k + 1;
    }
    r
}

/// Extracts the region names of the remote document's `[REGIONS]` section:
/// for each body line whose trimmed form starts with `REGIONNAME`, the
/// trimmed remainder, de-duplicated, in first-seen order.
pub fn extract_region_names(content: &[u8]) -> (r: Vec<Vec<u8>>)
    ensures
        views(r@) == spec_region_names(content@),
{
    let lines = sct_lines(content);
    let ghost ls = spec_sct_lines(content@);
    let mut r: Vec<Vec<u8>> = Vec::new();
    let mut in_regions = false;
    let mut k: usize = 0;
    proof {
        assert(views(r@) =~= Seq::<Seq<u8>>::empty());
    }
    while k < lines.len()
        invariant
            k <= lines.len(),
            views(lines@) == ls,
            region_rec(ls, k as int, views(r@), in_regions) == spec_region_names(content@),
        decreases lines.len() - k,
    {
        let ghost names0 = views(r@);
        let ghost reg0 = in_regions;
        let tr = trim_slice(lines[k].as_slice());
        proof {
            assert(lines@[k as int]@ == ls[k as int]);
            assert(tr@ == spec_trim(ls[k as int]));
        }
        if tr.len() > 0 && tr[0] == 91 {
            in_regions = is_regions_header_exec(tr);
        } else if in_regions && has_regionname_prefix_exec(tr) {
            let nm = trim_slice(vstd::slice::slice_subrange(tr, 10, tr.len()));
            proof {
                assert(tr@.subrange(10, tr@.len() as int) =~= tr@.skip(10));
            }
            if nm.len() > 0 && !contains_name(&r, nm) {
                let nv = vstd::slice::slice_to_vec(nm);
                proof {
                    assert(views(r@.push(nv)) =~= views(r@).push(nv@));
                }
                r.push(nv);
            }
        }
        proof {
            let st = region_step(names0, reg0, ls[k as int]);
            assert(st.0 =~= views(r@));
            assert(st.1 == in_regions);
        }
        k = k + 1;
    }
    r
}

/// Literal substring search.
pub fn contains_bytes(hay: &[u8], needle: &[u8]) -> (r: bool)
    ensures
        r <==> is_sub(hay@, needle@),
{
    let m = needle.len();
    if m > hay.len() {
        return false;
    }
    if m == 0 {
        proof {
            assert(hay@.subrange(0, 0 + needle@.len() as int) =~= needle@);
            assert(is_sub(hay@, needle@));
        }
        return true;
    }
    let limit = hay.len() - m;
    let mut i: usize = 0;
    while i <= limit
        invariant
            i <= limit + 1,
            limit == hay@.len() - needle@.len(),
            m == needle@.len(),
            1 <= m,
            hay@.len() <= usize::MAX,
            forall|x: int|
                0 <= x < i ==> #[trigger] hay@.subrange(x, x + needle@.len() as int) != needle@,
        decreases limit + 1 - i,
    {
        let mut j: usize = 0;
        let mut hit = true;
        while j < m
            invariant
                j <= m,
                m == needle@.len(),
                i + m <= hay@.len(),
                hay@.len() <= usize::MAX,
                hit ==> forall|y: int| 0 <= y < j ==> hay@[i + y] == needle@[y],
                !hit ==> hay@.subrange(i as int, i + needle@.len() as int) != needle@,
            decreases m - j,
        {
            if hay[i + j] != needle[j] {
                proof {
                    assert(hay@.subrange(i as int, i + needle@.len() as int)[j as int] == hay@[i
                        + j]);
                }
                hit = false;
                j = m;
            } else {
                j = j + 1;
            }
        }
        if hit {
            proof {
                assert(hay@.subrange(i as int, i + needle@.len() as int) =~= needle@);
            }
            return true;
        }
        i = i + 1;
    }
    proof {
        assert forall|x: int|
            0 <= x && x + needle@.len() <= hay@.len() implies #[trigger] hay@.subrange(
            x,
            x + needle@.len() as int,
        ) != needle@ by {}
    }
    false
}

/// Whether any geo or region name of the remote update occurs as a literal
/// substring of the local document.
pub fn any_known_name(local: &[u8], remote: &[u8]) -> (r: bool)
    ensures
        r <==> spec_partially_installed(local@, remote@),
{
    let geo = extract_geo_area_names(remote);
    let mut k: usize = 0;
    while k < geo.len()
        invariant
            k <= geo.len(),
            views(geo@) == spec_geo_names(remote@),
            forall|j: int| 0 <= j < k ==> !is_sub(local@, spec_geo_names(remote@)[j]),
        decreases geo.len() - k,
    {
        if contains_bytes(local, geo[k].as_slice()) {
            proof {
                assert(is_sub(local@, spec_geo_names(remote@)[k as int]));
            }
            return true;
        }
        k = k + 1;
    }
    let regions = extract_region_names(remote);
    let mut k2: usize = 0;
    while k2 < regions.len()
        invariant
            k2 <= regions.len(),
            views(regions@) == spec_region_names(remote@),
            forall|j: int| 0 <= j < regions@.len() && j < k2 ==> !is_sub(
                local@,
                spec_region_names(remote@)[j],
            ),
            forall|j: int| 0 <= j < spec_geo_names(remote@).len() ==> !is_sub(
                local@,
                spec_geo_names(remote@)[j],
            ),
        decreases regions.len() - k2,
    {
        if contains_bytes(local, regions[k2].as_slice()) {
            proof {
                assert(is_sub(local@, spec_region_names(remote@)[k2 as int]));
            }
            return true;
        }
        k2 = k2 + 1;
    }
    false
}

} // verus!
