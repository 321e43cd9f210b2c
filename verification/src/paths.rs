//! Workspace paths and the listing shown to the user.

use vstd::prelude::*;
use crate::scan::name_views;

verus! {

/// The bytes of the workspace directory path, `/etc/ihosts`.
pub open spec fn workspace_dir() -> Seq<u8> {
    seq![47u8, 101u8, 116u8, 99u8, 47u8, 105u8, 104u8, 111u8, 115u8, 116u8, 115u8]
}

/// An exec copy of the workspace directory path.
pub fn workspace_dir_bytes() -> (r: Vec<u8>)
    ensures
        r@ == workspace_dir(),
{
    let mut r: Vec<u8> = Vec::new();
    r.push(47u8);
    r.push(101u8);
    r.push(116u8);
    r.push(99u8);
    r.push(47u8);
    r.push(105u8);
    r.push(104u8);
    r.push(111u8);
    r.push(115u8);
    r.push(116u8);
    r.push(115u8);
    proof {
        assert(r@ =~= workspace_dir());
    }
    r
}

/// The path of the file that stores the profile `file_name`: the workspace
/// directory, a separator, and the name.
pub fn transform_path(file_name: &Vec<u8>) -> (r: Vec<u8>)
    ensures
        r@ == workspace_dir() + seq![47u8] + file_name@,
{
    let mut r = workspace_dir_bytes();
    r.push(47u8);
    r.extend_from_slice(file_name.as_slice());
    proof {
        assert(r@ =~= workspace_dir() + seq![47u8] + file_name@);
    }
    r
}

/// The last `/`-separated segment of `s`; empty when `s` ends in `/`.
pub open spec fn last_segment(s: Seq<u8>) -> Seq<u8>
    decreases s.len(),
{
    if s.len() == 0 {
        Seq::empty()
    } else if s.last() == 47u8 {
        Seq::empty()
    } else {
        last_segment(s.subrange(0, s.len() - 1)).push(s.last())
    }
}

proof fn lemma_last_segment_suffix(s: Seq<u8>, k: int)
    requires
        0 <= k <= s.len(),
        forall|j: int| k <= j < s.len() ==> s[j] != 47u8,
        k == 0 || s[k - 1] == 47u8,
    ensures
        last_segment(s) == s.subrange(k, s.len() as int),
    decreases s.len(),
{
    if k == s.len() {
        if k > 0 {
            assert(s.last() == 47u8);
        }
        assert(last_segment(s) =~= s.subrange(k, s.len() as int));
    } else {
        assert(s.last() != 47u8);
        let t = s.subrange(0, s.len() - 1);
        lemma_last_segment_suffix(t, k);
        assert(last_segment(s) =~= s.subrange(k, s.len() as int));
    }
}

/// The base name of a path: everything after the last separator, the whole
/// path when it holds none.
pub fn base_name(path: &Vec<u8>) -> (r: Vec<u8>)
    ensures
        r@ == last_segment(path@),
{
    let n = path.len();
    let mut k: usize = n;
    while k > 0 && path[k - 1] != 47u8
        invariant
            0 <= k <= n,
            n == path@.len(),
            forall|j: int| k <= j < n ==> path@[j] != 47u8,
        decreases k,
    {
        k -= 1;
    }
    proof {
        lemma_last_segment_suffix(path@, k as int);
    }
    let mut r: Vec<u8> = Vec::new();
    let mut j: usize = k;
    while j < n
        invariant
            k <= j <= n,
            n == path@.len(),
            r@ == path@.subrange(k as int, j as int),
        decreases n - j,
    {
        r.push(path[j]);
        proof {
            assert(r@ =~= path@.subrange(k as int, j + 1));
        }
        j += 1;
    }
    r
}

/// One row of the listing: a profile name and whether it is in use.
pub struct ListRow {
    pub name: Vec<u8>,
    pub used: bool,
}

/// The rows of the listing: one per store entry, in store order, each
/// marked with whether the active set holds its name.
pub fn list_rows(files: &Vec<Vec<u8>>, used: &Vec<Vec<u8>>) -> (r: Vec<ListRow>)
    ensures
        r@.len() == files@.len(),
        forall|i: int|
            0 <= i < r@.len() ==> r@[i].name@ == files@[i]@ && r@[i].used == name_views(
                used@,
            ).contains(files@[i]@),
{
    let n = files.len();
    let mut r: Vec<ListRow> = Vec::new();
    let mut k: usize = 0;
    while k < n
        invariant
            0 <= k <= n,
            n == files@.len(),
            r@.len() == k,
            forall|i: int|
                0 <= i < k ==> r@[i].name@ == files@[i]@ && r@[i].used == name_views(
                    used@,
                ).contains(files@[i]@),
        decreases n - k,
    {
        let name = files[k].clone();
        let is_used = crate::scan::contains_name(used, &name);
        r.push(ListRow { name, used: is_used });
        k += 1;
    }
    r
}

} // verus!
