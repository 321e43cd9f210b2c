//! Scanning the hosts file for annotated profile names.
//!
//! A line marks a profile as in use when, after trimming surrounding
//! whitespace, it starts with the annotation `# hostname=`. The candidate
//! name is the first non-empty segment obtained by splitting the trimmed
//! line on the annotation; it is accepted only if it names a profile that
//! the store currently lists.

use vstd::prelude::*;
use vstd::slice::slice_subrange;
use crate::lines::{split_lines, BufLine, first_line, rest_after_line, lemma_split_lines_step};

verus! {

/// The annotation marker, the bytes of `# hostname=`.
pub open spec fn annotation() -> Seq<u8> {
    seq![35u8, 32u8, 104u8, 111u8, 115u8, 116u8, 110u8, 97u8, 109u8, 101u8, 61u8]
}

/// An exec copy of the annotation marker.
pub fn annotation_bytes() -> (r: Vec<u8>)
    ensures
        r@ == annotation(),
{
    let mut r: Vec<u8> = Vec::new();
    r.push(35u8);
    r.push(32u8);
    r.push(104u8);
    r.push(111u8);
    r.push(115u8);
    r.push(116u8);
    r.push(110u8);
    r.push(97u8);
    r.push(109u8);
    r.push(101u8);
    r.push(61u8);
    proof {
        assert(r@ =~= annotation());
    }
    r
}

/// ASCII whitespace, as trimmed from the ends of a scanned line.
pub open spec fn is_space(b: u8) -> bool {
    b == 32u8 || (9u8 <= b && b <= 13u8)
}

pub fn is_space_byte(b: u8) -> (r: bool)
    ensures
        r == is_space(b),
{
    b == 32u8 || (9u8 <= b && b <= 13u8)
}

/// `s` without its leading whitespace.
pub open spec fn trim_start(s: Seq<u8>) -> Seq<u8>
    decreases s.len(),
{
    if s.len() > 0 && is_space(s[0]) {
        trim_start(s.subrange(1, s.len() as int))
    } else {
        s
    }
}

/// `s` without its trailing whitespace.
pub open spec fn trim_end(s: Seq<u8>) -> Seq<u8>
    decreases s.len(),
{
    if s.len() > 0 && is_space(s.last()) {
        trim_end(s.subrange(0, s.len() - 1))
    } else {
        s
    }
}

/// `s` without leading and trailing whitespace.
pub open spec fn trimmed(s: Seq<u8>) -> Seq<u8> {
    trim_end(trim_start(s))
}

proof fn lemma_trim_start_skip(s: Seq<u8>, lo: int)
    requires
        0 <= lo <= s.len(),
        forall|j: int| 0 <= j < lo ==> is_space(s[j]),
    ensures
        trim_start(s) == trim_start(s.subrange(lo, s.len() as int)),
    decreases lo,
{
    if lo == 0 {
        assert(s.subrange(0, s.len() as int) =~= s);
    } else {
        assert(is_space(s[0]));
        let t = s.subrange(1, s.len() as int);
        lemma_trim_start_skip(t, lo - 1);
        assert(t.subrange(lo - 1, t.len() as int) =~= s.subrange(lo, s.len() as int));
    }
}

proof fn lemma_trim_end_skip(s: Seq<u8>, hi: int)
    requires
        0 <= hi <= s.len(),
        forall|j: int| hi <= j < s.len() ==> is_space(s[j]),
    ensures
        trim_end(s) == trim_end(s.subrange(0, hi)),
    decreases s.len() - hi,
{
    if hi == s.len() {
        assert(s.subrange(0, s.len() as int) =~= s);
    } else {
        assert(is_space(s.last()));
        let t = s.subrange(0, s.len() - 1);
        lemma_trim_end_skip(t, hi);
        assert(t.subrange(0, hi) =~= s.subrange(0, hi));
    }
}

/// Trims ASCII whitespace from both ends of `line`.
pub fn trim_bytes(line: &[u8]) -> (r: Vec<u8>)
    ensures
        r@ == trimmed(line@),
{
    let n = line.len();
    let mut lo: usize = 0;
    while lo < n && is_space_byte(*vstd::slice::slice_index_get(line, lo))
        invariant
            0 <= lo <= n,
            n == line@.len(),
            forall|j: int| 0 <= j < lo ==> is_space(line@[j]),
        decreases n - lo,
    {
        lo += 1;
    }
    proof {
        lemma_trim_start_skip(line@, lo as int);
        if lo < n {
            assert(!is_space(line@.subrange(lo as int, n as int)[0]));
        }
        assert(trim_start(line@) == line@.subrange(lo as int, n as int));
    }
    let mut hi: usize = n;
    while hi > lo && is_space_byte(*vstd::slice::slice_index_get(line, hi - 1))
        invariant
            lo <= hi <= n,
            n == line@.len(),
            forall|j: int| hi <= j < n ==> is_space(line@[j]),
        decreases hi,
    {
        hi -= 1;
    }
    let ghost t = line@.subrange(lo as int, n as int);
    proof {
        assert forall|j: int| hi - lo <= j < t.len() implies is_space(t[j]) by {
            assert(t[j] == line@[lo + j]);
        }
        lemma_trim_end_skip(t, hi - lo);
        if hi > lo {
            assert(t.subrange(0, hi - lo).last() == line@[hi - 1]);
        }
        assert(trim_end(t) == t.subrange(0, hi - lo));
    }
    let mut r: Vec<u8> = Vec::new();
    let mut k: usize = lo;
    while k < hi
        invariant
            lo <= k <= hi <= n,
            n == line@.len(),
            r@ == line@.subrange(lo as int, k as int),
        decreases hi - k,
    {
        r.push(*vstd::slice::slice_index_get(line, k));
        proof {
            assert(r@ =~= line@.subrange(lo as int, k + 1));
        }
        k += 1;
    }
    proof {
        assert(r@ =~= t.subrange(0, hi - lo));
    }
    r
}

/// `p` is a prefix of `s`.
pub open spec fn begins_with(s: Seq<u8>, p: Seq<u8>) -> bool {
    p.len() <= s.len() && s.subrange(0, p.len() as int) == p
}

/// Compares a prefix of `s` against `p`.
pub fn has_prefix(s: &[u8], p: &[u8]) -> (r: bool)
    ensures
        r == begins_with(s@, p@),
{
    let m = p.len();
    if m > s.len() {
        return false;
    }
    let mut k: usize = 0;
    while k < m
        invariant
            0 <= k <= m <= s@.len(),
            m == p@.len(),
            forall|j: int| 0 <= j < k ==> s@[j] == p@[j],
        decreases m - k,
    {
        if *vstd::slice::slice_index_get(s, k) != *vstd::slice::slice_index_get(p, k) {
            proof {
                if begins_with(s@, p@) {
                    assert(s@.subrange(0, m as int)[k as int] == p@[k as int]);
                }
            }
            return false;
        }
        k += 1;
    }
    proof {
        assert(s@.subrange(0, m as int) =~= p@);
    }
    true
}

/// The trimmed line with every leading copy of the annotation removed:
/// the empty segments produced by splitting on the annotation, skipped.
pub open spec fn strip_annotations(s: Seq<u8>) -> Seq<u8>
    decreases s.len(),
{
    if begins_with(s, annotation()) {
        strip_annotations(s.subrange(annotation().len() as int, s.len() as int))
    } else {
        s
    }
}

/// Index of the first occurrence of the annotation in `s`, or `s.len()`
/// if there is none.
pub open spec fn find_annotation(s: Seq<u8>) -> nat
    decreases s.len(),
{
    if s.len() < annotation().len() {
        s.len()
    } else if begins_with(s, annotation()) {
        0
    } else {
        1 + find_annotation(s.subrange(1, s.len() as int))
    }
}

/// The candidate profile name carried by one line, if any: the line is
/// trimmed, must start with the annotation, and the name is the first
/// non-empty segment of the split on the annotation.
pub open spec fn candidate_of_line(line: Seq<u8>) -> Option<Seq<u8>> {
    let t = trimmed(line);
    if !begins_with(t, annotation()) {
        None
    } else {
        let r = strip_annotations(t);
        if r.len() == 0 {
            None
        } else {
            Some(r.subrange(0, find_annotation(r) as int))
        }
    }
}

/// Extracts the candidate profile name from one line of the hosts file.
pub fn candidate_of(line: &[u8]) -> (r: Option<Vec<u8>>)
    ensures
        match r {
            Some(v) => candidate_of_line(line@) == Some(v@),
            None => candidate_of_line(line@) is None,
        },
{
    let t = trim_bytes(line);
    let ann = annotation_bytes();
    if !has_prefix(t.as_slice(), ann.as_slice()) {
        return None;
    }
    let tn = t.len();
    let mut pos: usize = 0;
    proof {
        assert(t@.subrange(0, tn as int) =~= t@);
    }
    loop
        invariant
            0 <= pos <= tn,
            tn == t@.len(),
            ann@ == annotation(),
            t@ == trimmed(line@),
            strip_annotations(t@) == strip_annotations(t@.subrange(pos as int, tn as int)),
        ensures
            0 <= pos <= tn,
            strip_annotations(t@) == t@.subrange(pos as int, tn as int),
        decreases tn - pos,
    {
        if tn - pos >= 11 && has_prefix(
            slice_subrange(t.as_slice(), pos, tn),
            ann.as_slice(),
        ) {
            proof {
                let cur = t@.subrange(pos as int, tn as int);
                assert(cur.subrange(annotation().len() as int, cur.len() as int) =~= t@.subrange(
                    pos + 11,
                    tn as int,
                ));
            }
            pos += 11;
        } else {
            proof {
                let cur = t@.subrange(pos as int, tn as int);
                assert(!begins_with(cur, annotation()));
            }
            break;
        }
    }
    let rlen = tn - pos;
    let ghost rem = t@.subrange(pos as int, tn as int);
    if rlen == 0 {
        return None;
    }
    let mut k: usize = 0;
    proof {
        assert(rem.subrange(0, rlen as int) =~= rem);
    }
    loop
        invariant
            0 <= k <= rlen,
            rlen == tn - pos,
            0 <= pos <= tn,
            tn == t@.len(),
            ann@ == annotation(),
            rem == t@.subrange(pos as int, tn as int),
            find_annotation(rem) == k + find_annotation(rem.subrange(k as int, rlen as int)),
        ensures
            0 <= k <= rlen,
            find_annotation(rem) == if k < rlen {
                k as nat
            } else {
                rem.len()
            },
        decreases rlen - k,
    {
        proof {
            assert(rem.subrange(0, rlen as int) =~= rem);
        }
        if rlen - k < 11 {
            proof {
                let cur = rem.subrange(k as int, rlen as int);
                assert(cur.len() < annotation().len());
                assert(find_annotation(rem) == rem.len());
            }
            k = rlen;
            break;
        }
        if has_prefix(slice_subrange(t.as_slice(), pos + k, tn), ann.as_slice()) {
            proof {
                let cur = rem.subrange(k as int, rlen as int);
                assert(cur =~= t@.subrange(pos + k, tn as int));
                assert(begins_with(cur, annotation()));
                assert(find_annotation(cur) == 0);
            }
            break;
        }
        proof {
            let cur = rem.subrange(k as int, rlen as int);
            assert(cur =~= t@.subrange(pos + k, tn as int));
            assert(!begins_with(cur, annotation()));
            assert(cur.subrange(1, cur.len() as int) =~= rem.subrange(k + 1, rlen as int));
        }
        k += 1;
    }
    let idx = k;
    let mut name: Vec<u8> = Vec::new();
    let mut j: usize = 0;
    while j < idx
        invariant
            0 <= j <= idx <= rlen,
            rlen == tn - pos,
            tn == t@.len(),
            rem == t@.subrange(pos as int, tn as int),
            name@ == rem.subrange(0, j as int),
        decreases idx - j,
    {
        name.push(t[pos + j]);
        proof {
            assert(name@ =~= rem.subrange(0, j + 1));
        }
        j += 1;
    }
    proof {
        if idx == rlen {
            assert(rem.subrange(0, find_annotation(rem) as int) =~= rem.subrange(0, idx as int));
        }
    }
    Some(name)
}

/// The views of a sequence of byte vectors.
pub open spec fn name_views(l: Seq<Vec<u8>>) -> Seq<Seq<u8>> {
    l.map_values(|v: Vec<u8>| v@)
}

/// Whether the listing `list` holds the name `name`.
pub fn contains_name(list: &Vec<Vec<u8>>, name: &Vec<u8>) -> (r: bool)
    ensures
        r == name_views(list@).contains(name@),
{
    let n = list.len();
    let mut k: usize = 0;
    while k < n
        invariant
            0 <= k <= n,
            n == list@.len(),
            forall|j: int| 0 <= j < k ==> list@[j]@ != name@,
        decreases n - k,
    {
        if bytes_eq(&list[k], name) {
            proof {
                assert(name_views(list@)[k as int] == name@);
            }
            return true;
        }
        k += 1;
    }
    proof {
        assert forall|j: int| 0 <= j < name_views(list@).len() implies name_views(list@)[j]
            != name@ by {
            assert(name_views(list@)[j] == list@[j]@);
        }
    }
    false
}

/// Byte-vector equality, decided element by element.
pub fn bytes_eq(a: &Vec<u8>, b: &Vec<u8>) -> (r: bool)
    ensures
        r == (a@ == b@),
{
    let n = a.len();
    if n != b.len() {
        return false;
    }
    let mut k: usize = 0;
    while k < n
        invariant
            0 <= k <= n,
            n == a@.len() == b@.len(),
            forall|j: int| 0 <= j < k ==> a@[j] == b@[j],
        decreases n - k,
    {
        if a[k] != b[k] {
            return false;
        }
        k += 1;
    }
    proof {
        assert(a@ =~= b@);
    }
    true
}

/// What one line contributes to the recovered active set.
pub open spec fn line_contribution(line: Seq<u8>, list: Seq<Seq<u8>>) -> Seq<Seq<u8>> {
    match candidate_of_line(line) {
        Some(n) => if list.contains(n) {
            seq![n]
        } else {
            Seq::empty()
        },
        None => Seq::empty(),
    }
}

/// The names recovered from a sequence of lines, in order of appearance.
pub open spec fn scan_lines(ls: Seq<Seq<u8>>, list: Seq<Seq<u8>>) -> Seq<Seq<u8>>
    decreases ls.len(),
{
    if ls.len() == 0 {
        Seq::empty()
    } else {
        scan_lines(ls.drop_last(), list) + line_contribution(ls.last(), list)
    }
}

/// The active set encoded in `hosts`, filtered against the listing `list`.
pub open spec fn active_names(hosts: Seq<u8>, list: Seq<Seq<u8>>) -> Seq<Seq<u8>> {
    scan_lines(split_lines(hosts), list)
}

/// The views of a sequence of byte slices.
pub open spec fn slice_views(l: Seq<&[u8]>) -> Seq<Seq<u8>> {
    l.map_values(|v: &[u8]| v@)
}

/// Recovers the ordered active set from the raw bytes of the hosts file:
/// every annotated name that also appears in the store listing `list`, in
/// order of appearance, duplicates preserved.
pub fn get_used_hostnames_from_hosts_file(hosts: &[u8], list: &Vec<Vec<u8>>) -> (r: Vec<Vec<u8>>)
    ensures
        name_views(r@) == active_names(hosts@, name_views(list@)),
{
    let mut lines: Vec<&[u8]> = Vec::new();
    let mut bl = BufLine::new(hosts);
    loop
        invariant
            slice_views(lines@) + split_lines(bl@) == split_lines(hosts@),
        ensures
            slice_views(lines@) == split_lines(hosts@),
        decreases bl@.len(),
    {
        let ghost pre = bl@;
        match bl.next() {
            None => {
                break;
            },
            Some(l) => {
                proof {
                    lemma_split_lines_step(pre);
                }
                lines.push(l);
                proof {
                    assert(slice_views(lines@) =~= slice_views(lines@.drop_last()).push(l@));
                    assert(slice_views(lines@) + split_lines(bl@) =~= slice_views(
                        lines@.drop_last(),
                    ) + (seq![first_line(pre)] + split_lines(rest_after_line(pre))));
                }
            },
        }
    }
    let n = lines.len();
    let mut r: Vec<Vec<u8>> = Vec::new();
    let mut k: usize = 0;
    while k < n
        invariant
            0 <= k <= n,
            n == lines@.len(),
            slice_views(lines@) == split_lines(hosts@),
            name_views(r@) == scan_lines(slice_views(lines@).take(k as int), name_views(list@)),
        decreases n - k,
    {
        let ghost pre = name_views(r@);
        let ghost lv = slice_views(lines@);
        match candidate_of(lines[k]) {
            Some(name) => {
                if contains_name(list, &name) {
                    let ghost nv = name@;
                    r.push(name);
                    proof {
                        assert(name_views(r@) =~= pre.push(nv));
                    }
                } else {
                    proof {
                        assert(line_contribution(lv[k as int], name_views(list@))
                            =~= Seq::<Seq<u8>>::empty());
                    }
                }
            },
            None => {
                proof {
                    assert(line_contribution(lv[k as int], name_views(list@)) =~= Seq::<
                        Seq<u8>,
                    >::empty());
                }
            },
        }
        proof {
            assert(lv.take(k + 1).drop_last() =~= lv.take(k as int));
            assert(lv.take(k + 1).last() == lv[k as int]);
            assert(lv[k as int] == lines@[k as int]@);
            assert(name_views(r@) =~= scan_lines(lv.take(k + 1), name_views(list@)));
        }
        k += 1;
    }
    proof {
        assert(slice_views(lines@).take(n as int) =~= slice_views(lines@));
    }
    r
}

} // verus!
