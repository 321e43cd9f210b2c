//! Splitting a byte buffer into lines, with `\n` as the sole delimiter.
//! A final unterminated line is still yielded; an empty buffer yields no
//! lines at all.

use vstd::prelude::*;
use vstd::slice::slice_subrange;

verus! {

/// The line delimiter, `\n`.
pub open spec fn nl() -> u8 {
    10u8
}

/// Index of the first `\n` in `s`, or `s.len()` if there is none.
pub open spec fn find_newline(s: Seq<u8>) -> nat
    decreases s.len(),
{
    if s.len() == 0 {
        0
    } else if s[0] == nl() {
        0
    } else {
        1 + find_newline(s.subrange(1, s.len() as int))
    }
}

pub proof fn lemma_find_newline(s: Seq<u8>)
    ensures
        find_newline(s) <= s.len(),
        forall|j: int| 0 <= j < find_newline(s) ==> s[j] != nl(),
        find_newline(s) < s.len() ==> s[find_newline(s) as int] == nl(),
    decreases s.len(),
{
    if s.len() == 0 {
    } else if s[0] == nl() {
    } else {
        let t = s.subrange(1, s.len() as int);
        lemma_find_newline(t);
        assert forall|j: int| 0 <= j < find_newline(s) implies s[j] != nl() by {
            if j >= 1 {
                assert(t[j - 1] != nl());
            }
        }
    }
}

/// If `s[k]` is the first `\n`, then `find_newline(s) == k`.
pub proof fn lemma_find_newline_at(s: Seq<u8>, k: int)
    requires
        0 <= k < s.len(),
        s[k] == nl(),
        forall|j: int| 0 <= j < k ==> s[j] != nl(),
    ensures
        find_newline(s) == k,
{
    lemma_find_newline(s);
    if find_newline(s) < k {
        assert(s[find_newline(s) as int] == nl());
    }
    if find_newline(s) > k {
        assert(s[k] != nl());
    }
}

/// If `s` holds no `\n`, then `find_newline(s) == s.len()`.
pub proof fn lemma_find_newline_absent(s: Seq<u8>)
    requires
        forall|j: int| 0 <= j < s.len() ==> s[j] != nl(),
    ensures
        find_newline(s) == s.len(),
{
    lemma_find_newline(s);
    if find_newline(s) < s.len() {
        assert(s[find_newline(s) as int] == nl());
    }
}

/// The first line of a non-empty buffer: everything before the first `\n`,
/// or the whole buffer if it holds none.
pub open spec fn first_line(s: Seq<u8>) -> Seq<u8> {
    if find_newline(s) < s.len() {
        s.subrange(0, find_newline(s) as int)
    } else {
        s
    }
}

/// What remains after the first line and its delimiter.
pub open spec fn rest_after_line(s: Seq<u8>) -> Seq<u8> {
    if find_newline(s) < s.len() {
        s.subrange(find_newline(s) as int + 1, s.len() as int)
    } else {
        Seq::empty()
    }
}

/// The sequence of lines of `s`: split at each `\n`, delimiters dropped,
/// a final unterminated line still yielded, and no line at all for an
/// empty buffer.
pub open spec fn split_lines(s: Seq<u8>) -> Seq<Seq<u8>>
    decreases s.len(),
{
    if s.len() == 0 {
        Seq::empty()
    } else if find_newline(s) < s.len() {
        seq![s.subrange(0, find_newline(s) as int)] + split_lines(
            s.subrange(find_newline(s) as int + 1, s.len() as int),
        )
    } else {
        seq![s]
    }
}

/// Unrolling `split_lines` once at the front.
pub proof fn lemma_split_lines_step(s: Seq<u8>)
    requires
        s.len() > 0,
    ensures
        split_lines(s) == seq![first_line(s)] + split_lines(rest_after_line(s)),
{
    lemma_find_newline(s);
    if find_newline(s) < s.len() {
    } else {
        assert(split_lines(rest_after_line(s)) == Seq::<Seq<u8>>::empty());
        assert(split_lines(s) =~= seq![first_line(s)] + split_lines(rest_after_line(s)));
    }
}

/// A cursor over a byte buffer that hands out one line at a time.
pub struct BufLine<'a> {
    bufs: &'a [u8],
}

impl<'a> BufLine<'a> {
    /// The bytes not yet consumed.
    pub closed spec fn view(&self) -> Seq<u8> {
        self.bufs@
    }

    pub fn new(bufs: &'a [u8]) -> (r: Self)
        ensures
            r@ == bufs@,
    {
        Self { bufs }
    }

    /// Yields the next line, or `None` once the buffer is exhausted.
    #[verifier::loop_isolation(false)]
    pub fn next(&mut self) -> (r: Option<&'a [u8]>)
        ensures
            match r {
                None => old(self)@.len() == 0 && final(self)@ == old(self)@,
                Some(l) => old(self)@.len() > 0 && l@ == first_line(old(self)@) && final(self)@
                    == rest_after_line(old(self)@),
            },
    {
        let bufs = self.bufs;
        let n = bufs.len();
        let mut index: usize = 0;
        while index < n
            invariant
                self == old(self),
                n == bufs@.len(),
                0 <= index <= n,
                forall|j: int| 0 <= j < index ==> bufs@[j] != nl(),
            decreases n - index,
        {
            if *vstd::slice::slice_index_get(bufs, index) == 10u8 {
                proof {
                    lemma_find_newline_at(bufs@, index as int);
                }
                let line = slice_subrange(bufs, 0, index);
                self.bufs = slice_subrange(bufs, index + 1, n);
                return Some(line);
            }
            index += 1;
        }
        proof {
            lemma_find_newline_absent(bufs@);
        }
        if n == 0 {
            None
        } else {
            self.bufs = slice_subrange(bufs, n, n);
            proof {
                assert(self@ =~= rest_after_line(bufs@));
            }
            Some(bufs)
        }
    }
}

} // verus!
