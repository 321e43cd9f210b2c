//! Rendering the hosts file from an ordered active set.
//!
//! Each name that the store holds contributes one block: the annotation,
//! the name, a newline, then the profile's raw content verbatim. A name
//! the store does not hold is skipped silently. Blocks are concatenated
//! in input order and the result replaces the hosts file wholesale.

use vstd::prelude::*;
use crate::scan::{annotation, annotation_bytes, name_views};

verus! {

/// One profile of the store: a name and its raw content.
pub struct Profile {
    pub name: Vec<u8>,
    pub content: Vec<u8>,
}

/// The content stored under `name`, if any; the first match decides.
pub open spec fn lookup(store: Seq<Profile>, name: Seq<u8>) -> Option<Seq<u8>>
    decreases store.len(),
{
    if store.len() == 0 {
        None
    } else if store[0].name@ == name {
        Some(store[0].content@)
    } else {
        lookup(store.subrange(1, store.len() as int), name)
    }
}

/// The block one name contributes to the rendered hosts file.
pub open spec fn block_of(name: Seq<u8>, store: Seq<Profile>) -> Seq<u8> {
    match lookup(store, name) {
        Some(c) => annotation() + name + seq![10u8] + c,
        None => Seq::empty(),
    }
}

/// The full rendered hosts file for the ordered names `names`.
pub open spec fn rendered(names: Seq<Seq<u8>>, store: Seq<Profile>) -> Seq<u8>
    decreases names.len(),
{
    if names.len() == 0 {
        Seq::empty()
    } else {
        rendered(names.drop_last(), store) + block_of(names.last(), store)
    }
}

/// Returns the raw content stored under `name`, or `None` if the store
/// holds no profile of that name.
pub fn read_profile<'a>(store: &'a Vec<Profile>, name: &Vec<u8>) -> (r: Option<&'a Vec<u8>>)
    ensures
        match r {
            Some(c) => lookup(store@, name@) == Some(c@),
            None => lookup(store@, name@) is None,
        },
{
    let n = store.len();
    let mut k: usize = 0;
    proof {
        assert(store@.subrange(0, n as int) =~= store@);
    }
    while k < n
        invariant
            0 <= k <= n,
            n == store@.len(),
            lookup(store@, name@) == lookup(store@.subrange(k as int, n as int), name@),
        decreases n - k,
    {
        if crate::scan::bytes_eq(&store[k].name, name) {
            proof {
                assert(store@.subrange(k as int, n as int)[0] == store@[k as int]);
            }
            return Some(&store[k].content);
        }
        proof {
            let cur = store@.subrange(k as int, n as int);
            assert(cur[0] == store@[k as int]);
            assert(cur.subrange(1, cur.len() as int) =~= store@.subrange(k + 1, n as int));
        }
        k += 1;
    }
    None
}

/// Renders the hosts file for the ordered active set `names` against the
/// store `store`: one annotated block per name the store holds, names the
/// store lacks skipped, all in input order.
pub fn render_hosts_file(names: &Vec<Vec<u8>>, store: &Vec<Profile>) -> (out: Vec<u8>)
    ensures
        out@ == rendered(name_views(names@), store@),
{
    let n = names.len();
    let mut out: Vec<u8> = Vec::new();
    let mut k: usize = 0;
    proof {
        assert(out@ =~= rendered(name_views(names@).take(0), store@));
    }
    while k < n
        invariant
            0 <= k <= n,
            n == names@.len(),
            out@ == rendered(name_views(names@).take(k as int), store@),
        decreases n - k,
    {
        let ghost nv = name_views(names@);
        match read_profile(store, &names[k]) {
            Some(content) => {
                let ann = annotation_bytes();
                out.extend_from_slice(ann.as_slice());
                out.extend_from_slice(names[k].as_slice());
                out.push(10u8);
                out.extend_from_slice(content.as_slice());
                proof {
                    assert(out@ =~= rendered(nv.take(k as int), store@) + block_of(
                        nv[k as int],
                        store@,
                    ));
                }
            },
            None => {
                proof {
                    assert(block_of(nv[k as int], store@) =~= Seq::<u8>::empty());
                    assert(out@ =~= rendered(nv.take(k as int), store@) + block_of(
                        nv[k as int],
                        store@,
                    ));
                }
            },
        }
        proof {
            assert(nv.take(k + 1).drop_last() =~= nv.take(k as int));
            assert(nv.take(k + 1).last() == nv[k as int]);
        }
        k += 1;
    }
    proof {
        assert(name_views(names@).take(n as int) =~= name_views(names@));
    }
    out
}

} // verus!
