//! Laws tying the renderer and the scanner together.
//!
//! The two sides of the tool meet in the hosts file: the renderer writes
//! annotated blocks, and the scanner recovers the active set from them.
//! This module proves that the encoding round-trips: for well-formed names
//! and contents, scanning a freshly rendered hosts file against an
//! unchanged store recovers exactly the active set that was rendered, in
//! order; and that after a name is dropped from the active set, nothing of
//! it remains to be scanned.

use vstd::prelude::*;
use crate::lines::{nl, split_lines, find_newline, lemma_find_newline, lemma_find_newline_at};
use crate::scan::{
    annotation,
    begins_with,
    candidate_of_line,
    find_annotation,
    is_space,
    line_contribution,
    scan_lines,
    active_names,
    strip_annotations,
    trim_start,
    trim_end,
    trimmed,
};
use crate::render::{lookup, block_of, rendered, Profile};
use crate::active::{removed, lemma_removed_absent};

verus! {

/// A profile name that survives the annotation encoding: non-empty, free
/// of line breaks, not ending in whitespace, and never containing the
/// annotation marker itself.
pub open spec fn wf_name(n: Seq<u8>) -> bool {
    &&& n.len() > 0
    &&& forall|j: int| 0 <= j < n.len() ==> n[j] != nl()
    &&& !is_space(n.last())
    &&& find_annotation(n) == n.len()
}

/// Profile content that keeps block boundaries intact and carries no
/// annotation of its own that the listing would accept: it is empty or
/// newline-terminated, and scanning it alone recovers nothing.
pub open spec fn wf_content(c: Seq<u8>, list: Seq<Seq<u8>>) -> bool {
    &&& c.len() == 0 || c.last() == nl()
    &&& scan_lines(split_lines(c), list) == Seq::<Seq<u8>>::empty()
}

/// The exact bytes one stored profile contributes to the hosts file.
pub open spec fn block_bytes(n: Seq<u8>, c: Seq<u8>) -> Seq<u8> {
    annotation() + n + seq![nl()] + c
}

/// Splitting distributes over concatenation at a line boundary.
pub proof fn lemma_split_lines_append(a: Seq<u8>, b: Seq<u8>)
    requires
        a.len() == 0 || a.last() == nl(),
    ensures
        split_lines(a + b) == split_lines(a) + split_lines(b),
    decreases a.len(),
{
    if a.len() == 0 {
        assert(a + b =~= b);
        assert(split_lines(a) + split_lines(b) =~= split_lines(b));
    } else {
        lemma_find_newline(a);
        let f = find_newline(a) as int;
        if f >= a.len() {
            assert(a[a.len() - 1] != nl());
        }
        assert(0 <= f < a.len());
        lemma_find_newline_at(a + b, f);
        let arest = a.subrange(f + 1, a.len() as int);
        assert((a + b).subrange(0, f) =~= a.subrange(0, f));
        assert((a + b).subrange(f + 1, (a + b).len() as int) =~= arest + b);
        if arest.len() > 0 {
            assert(arest.last() == a.last());
        }
        lemma_split_lines_append(arest, b);
        assert(split_lines(a + b) =~= split_lines(a) + split_lines(b));
    }
}

/// Scanning distributes over concatenation of line sequences.
pub proof fn lemma_scan_lines_append(x: Seq<Seq<u8>>, y: Seq<Seq<u8>>, list: Seq<Seq<u8>>)
    ensures
        scan_lines(x + y, list) == scan_lines(x, list) + scan_lines(y, list),
    decreases y.len(),
{
    if y.len() == 0 {
        assert(x + y =~= x);
        assert(scan_lines(x, list) + scan_lines(y, list) =~= scan_lines(x, list));
    } else {
        assert((x + y).drop_last() =~= x + y.drop_last());
        assert((x + y).last() == y.last());
        lemma_scan_lines_append(x, y.drop_last(), list);
        assert(scan_lines(x + y, list) =~= scan_lines(x, list) + scan_lines(y, list));
    }
}

/// A break-free buffer followed by one `\n` is exactly one line.
pub proof fn lemma_single_line(s: Seq<u8>)
    requires
        s.len() > 0,
        forall|j: int| 0 <= j < s.len() ==> s[j] != nl(),
    ensures
        split_lines(s + seq![nl()]) == seq![s],
{
    let w = s + seq![nl()];
    assert(w[s.len() as int] == nl());
    assert forall|j: int| 0 <= j < s.len() implies w[j] != nl() by {
        assert(w[j] == s[j]);
    }
    lemma_find_newline_at(w, s.len() as int);
    assert(find_newline(w) < w.len());
    assert(w.subrange(0, s.len() as int) =~= s);
    assert(w.subrange(s.len() as int + 1, w.len() as int) =~= Seq::<u8>::empty());
    assert(split_lines(w.subrange(s.len() as int + 1, w.len() as int)) =~= Seq::<Seq<u8>>::empty());
    assert(split_lines(w) =~= seq![s]);
}

/// The annotation line written for a well-formed name scans back to
/// exactly that name.
pub proof fn lemma_annotation_line_candidate(n: Seq<u8>)
    requires
        wf_name(n),
    ensures
        candidate_of_line(annotation() + n) == Some(n),
{
    let line = annotation() + n;
    assert(line[0] == 35u8);
    assert(!is_space(line[0]));
    assert(trim_start(line) == line);
    assert(line.last() == n.last());
    assert(trim_end(line) == line);
    assert(trimmed(line) == line);
    assert(line.subrange(0, annotation().len() as int) =~= annotation());
    assert(begins_with(line, annotation()));
    let rest = line.subrange(annotation().len() as int, line.len() as int);
    assert(rest =~= n);
    assert(strip_annotations(line) == strip_annotations(rest));
    assert(!begins_with(n, annotation())) by {
        if begins_with(n, annotation()) {
            assert(annotation().len() <= n.len());
            assert(find_annotation(n) == 0);
        }
    }
    assert(strip_annotations(n) == n);
    assert(strip_annotations(line) == n);
    assert(n.subrange(0, find_annotation(n) as int) =~= n);
}

/// Whether looked-up content, if any, keeps the block boundary.
pub open spec fn content_terminated(o: Option<Seq<u8>>) -> bool {
    match o {
        Some(c) => c.len() == 0 || c.last() == nl(),
        None => true,
    }
}

/// A rendered hosts file is empty or ends at a line boundary.
pub proof fn lemma_rendered_terminated(names: Seq<Seq<u8>>, store: Seq<Profile>)
    requires
        forall|i: int| 0 <= i < names.len() ==> content_terminated(lookup(store, names[i])),
    ensures
        rendered(names, store).len() == 0 || rendered(names, store).last() == nl(),
    decreases names.len(),
{
    if names.len() > 0 {
        assert forall|i: int|
            0 <= i < names.drop_last().len() implies content_terminated(
            lookup(store, names.drop_last()[i]),
        ) by {
            assert(names.drop_last()[i] == names[i]);
        }
        lemma_rendered_terminated(names.drop_last(), store);
        let pre = rendered(names.drop_last(), store);
        let blk = block_of(names.last(), store);
        match lookup(store, names.last()) {
            Some(c) => {
                assert(blk.len() > 0);
                assert(rendered(names, store).last() == blk.last());
                if c.len() == 0 {
                    assert(blk.last() == nl());
                } else {
                    assert(blk.last() == c.last());
                }
            },
            None => {
                assert(rendered(names, store) =~= pre);
            },
        }
    }
}

/// The names and the store agree for every rendered name: each is
/// well-formed, listed, and stored with well-formed content.
pub open spec fn wf_active(names: Seq<Seq<u8>>, store: Seq<Profile>, list: Seq<Seq<u8>>) -> bool {
    forall|i: int|
        0 <= i < names.len() ==> {
            &&& wf_name(names[i])
            &&& list.contains(names[i])
            &&& lookup(store, names[i]) is Some
            &&& wf_content(lookup(store, names[i]).unwrap(), list)
        }
}

/// Round trip: scanning a freshly rendered hosts file against the listing
/// that holds its names recovers exactly the rendered active set, in order.
pub proof fn lemma_render_scan_round_trip(
    names: Seq<Seq<u8>>,
    store: Seq<Profile>,
    list: Seq<Seq<u8>>,
)
    requires
        wf_active(names, store, list),
    ensures
        active_names(rendered(names, store), list) == names,
    decreases names.len(),
{
    if names.len() == 0 {
        assert(active_names(rendered(names, store), list) =~= names);
    } else {
        let ns = names.drop_last();
        let n = names.last();
        assert forall|i: int| 0 <= i < ns.len() implies #[trigger] ns[i] == names[i] by {}
        assert(wf_active(ns, store, list));
        lemma_render_scan_round_trip(ns, store, list);
        assert forall|i: int|
            0 <= i < ns.len() implies content_terminated(lookup(store, ns[i])) by {}
        lemma_rendered_terminated(ns, store);
        let c = lookup(store, n).unwrap();
        let head = annotation() + n + seq![nl()];
        let blk = block_of(n, store);
        assert(blk == head + c) by {
            assert(blk =~= head + c);
        }
        lemma_split_lines_append(rendered(ns, store), blk);
        assert(rendered(names, store) == rendered(ns, store) + blk);
        assert(head.last() == nl());
        lemma_split_lines_append(head, c);
        let an = annotation() + n;
        assert(an.len() > 0);
        assert forall|j: int| 0 <= j < an.len() implies an[j] != nl() by {
            if j < annotation().len() {
                assert(an[j] == annotation()[j]);
            } else {
                assert(an[j] == n[j - annotation().len()]);
            }
        }
        lemma_single_line(an);
        assert(head =~= an + seq![nl()]);
        assert(split_lines(head) == seq![an]);
        lemma_scan_lines_append(split_lines(rendered(ns, store)), split_lines(blk), list);
        lemma_scan_lines_append(split_lines(head), split_lines(c), list);
        lemma_annotation_line_candidate(n);
        assert(seq![an].drop_last() =~= Seq::<Seq<u8>>::empty());
        assert(seq![an].last() == an);
        assert(list.contains(n));
        assert(line_contribution(an, list) == seq![n]);
        assert(scan_lines(Seq::<Seq<u8>>::empty(), list) =~= Seq::<Seq<u8>>::empty());
        assert(scan_lines(seq![an], list) == scan_lines(seq![an].drop_last(), list)
            + line_contribution(an, list));
        assert(scan_lines(seq![an], list) =~= seq![n]);
        assert(scan_lines(split_lines(c), list) == Seq::<Seq<u8>>::empty());
        assert(active_names(rendered(names, store), list) =~= ns + seq![n]);
        assert(names =~= ns + seq![n]);
    }
}

/// Whatever removal leaves was already in the active set.
pub proof fn lemma_removed_subset(s: Seq<Seq<u8>>, n: Seq<u8>, x: Seq<u8>)
    requires
        removed(s, n).contains(x),
    ensures
        s.contains(x),
    decreases s.len(),
{
    if s.len() > 0 {
        let r = removed(s.drop_last(), n);
        if s.last() == n {
            lemma_removed_subset(s.drop_last(), n, x);
            let j = choose|j: int| 0 <= j < s.drop_last().len() && s.drop_last()[j] == x;
            assert(s[j] == x);
        } else {
            let w = r.push(s.last());
            let i = choose|i: int| 0 <= i < w.len() && w[i] == x;
            if i == w.len() - 1 {
                assert(s.last() == x);
            } else {
                assert(r[i] == x);
                assert(r.contains(x));
                lemma_removed_subset(s.drop_last(), n, x);
                let j = choose|j: int| 0 <= j < s.drop_last().len() && s.drop_last()[j] == x;
                assert(s[j] == x);
            }
        }
    }
}

/// After `un`, nothing of the name remains to be scanned: the re-rendered
/// hosts file scans back to the reduced active set, which no longer holds
/// the name, so no accepted annotation line for it is left.
pub proof fn lemma_unuse_leaves_no_line(
    names: Seq<Seq<u8>>,
    store: Seq<Profile>,
    list: Seq<Seq<u8>>,
    n: Seq<u8>,
)
    requires
        wf_active(names, store, list),
    ensures
        active_names(rendered(removed(names, n), store), list) == removed(names, n),
        !active_names(rendered(removed(names, n), store), list).contains(n),
{
    let r = removed(names, n);
    assert forall|i: int|
        0 <= i < r.len() implies {
            &&& wf_name(r[i])
            &&& list.contains(r[i])
            &&& lookup(store, r[i]) is Some
            &&& wf_content(lookup(store, r[i]).unwrap(), list)
        } by {
        assert(r.contains(r[i]));
        lemma_removed_subset(names, n, r[i]);
        let j = choose|j: int| 0 <= j < names.len() && names[j] == r[i];
        assert(wf_name(names[j]));
    }
    assert(wf_active(r, store, list));
    lemma_render_scan_round_trip(r, store, list);
    lemma_removed_absent(names, n);
}

/// After `use N` and a render, the hosts file holds the block of `N`:
/// the annotation line for `N` immediately followed by `N`'s content.
pub open spec fn holds_block(out: Seq<u8>, n: Seq<u8>, c: Seq<u8>) -> bool {
    exists|i: int|
        0 <= i && i + block_bytes(n, c).len() <= out.len() && #[trigger] out.subrange(
            i,
            i + block_bytes(n, c).len() as int,
        ) == block_bytes(n, c)
}

/// A rendered hosts file holds the block of every active name the store
/// holds.
pub proof fn lemma_rendered_holds_block(names: Seq<Seq<u8>>, store: Seq<Profile>, n: Seq<u8>)
    requires
        names.contains(n),
        lookup(store, n) is Some,
    ensures
        holds_block(rendered(names, store), n, lookup(store, n).unwrap()),
    decreases names.len(),
{
    let c = lookup(store, n).unwrap();
    let blk = block_bytes(n, c);
    let out = rendered(names, store);
    let pre = rendered(names.drop_last(), store);
    if names.last() == n {
        assert(block_of(n, store) == blk);
        let i = pre.len() as int;
        assert(out.subrange(i, i + blk.len() as int) =~= blk);
        assert(holds_block(out, n, c));
    } else {
        let j = choose|j: int| 0 <= j < names.len() && names[j] == n;
        assert(j < names.len() - 1);
        assert(names.drop_last()[j] == n);
        assert(names.drop_last().contains(n));
        lemma_rendered_holds_block(names.drop_last(), store, n);
        let i = choose|i: int|
            0 <= i && i + blk.len() <= pre.len() && #[trigger] pre.subrange(i, i + blk.len() as int)
                == blk;
        assert(out.subrange(i, i + blk.len() as int) =~= pre.subrange(i, i + blk.len() as int));
        assert(holds_block(out, n, c));
    }
}

/// `use N` makes `N` active, so the next render writes `N`'s block.
pub proof fn lemma_use_then_render_holds_block(
    names: Seq<Seq<u8>>,
    store: Seq<Profile>,
    n: Seq<u8>,
)
    requires
        lookup(store, n) is Some,
    ensures
        holds_block(
            rendered(crate::active::inserted(names, n), store),
            n,
            lookup(store, n).unwrap(),
        ),
{
    let s = crate::active::inserted(names, n);
    if names.contains(n) {
    } else {
        assert(s[s.len() - 1] == n);
        assert(s.contains(n));
    }
    lemma_rendered_holds_block(s, store, n);
}

} // verus!
