//! Shared text utilities: conversions between `&str` and `Vec<char>`, and the
//! sequence-level vocabulary (line joining, character search) that the bubble
//! and figure modules state their contracts with.

use vstd::prelude::*;

verus! {

use vstd::string::StrSliceExecFns;

/// The views of a sequence of character vectors, as a sequence of sequences.
pub open spec fn views(ls: Seq<Vec<char>>) -> Seq<Seq<char>> {
    Seq::new(ls.len(), |i: int| ls[i]@)
}

/// Lines joined with a single newline between consecutive lines; no newline
/// is added before the first line or after the last.
pub open spec fn join_lines(ls: Seq<Seq<char>>) -> Seq<char>
    decreases ls.len(),
{
    if ls.len() == 0 {
        Seq::empty()
    } else if ls.len() == 1 {
        ls[0]
    } else {
        join_lines(ls.drop_last()) + seq!['\n'] + ls.last()
    }
}

/// Joining distributes over concatenation of two non-empty line blocks,
/// with one newline at the seam.
pub proof fn lemma_join_concat(xs: Seq<Seq<char>>, ys: Seq<Seq<char>>)
    requires
        xs.len() >= 1,
        ys.len() >= 1,
    ensures
        join_lines(xs + ys) == join_lines(xs) + seq!['\n'] + join_lines(ys),
    decreases ys.len(),
{
    if ys.len() == 1 {
        assert((xs + ys).drop_last() =~= xs);
        assert((xs + ys).last() == ys[0]);
    } else {
        assert((xs + ys).drop_last() =~= xs + ys.drop_last());
        lemma_join_concat(xs, ys.drop_last());
    }
}

/// The index of the first occurrence of `ch` in `s`, or `s.len()` if `ch`
/// does not occur.
pub open spec fn first_occ(s: Seq<char>, ch: char) -> nat
    decreases s.len(),
{
    if s.len() == 0 {
        0
    } else if s[0] == ch {
        0
    } else {
        1 + first_occ(s.drop_first(), ch)
    }
}

pub proof fn lemma_first_occ_bounds(s: Seq<char>, ch: char)
    ensures
        first_occ(s, ch) <= s.len(),
        forall|j: int| 0 <= j < first_occ(s, ch) ==> s[j] != ch,
        first_occ(s, ch) < s.len() ==> s[first_occ(s, ch) as int] == ch,
    decreases s.len(),
{
    if s.len() > 0 && s[0] != ch {
        let t = s.drop_first();
        lemma_first_occ_bounds(t, ch);
        assert forall|j: int| 0 <= j < first_occ(s, ch) implies s[j] != ch by {
            if j >= 1 {
                assert(s[j] == t[j - 1]);
            }
        }
        if first_occ(s, ch) < s.len() {
            assert(s[first_occ(s, ch) as int] == t[first_occ(t, ch) as int]);
        }
    }
}

/// `first_occ` is determined by what a left-to-right scan sees: a position
/// with `ch` (or the end), with no `ch` anywhere before it.
pub proof fn lemma_first_occ_is(s: Seq<char>, ch: char, k: nat)
    requires
        k <= s.len(),
        forall|j: int| 0 <= j < k ==> s[j] != ch,
        k < s.len() ==> s[k as int] == ch,
    ensures
        first_occ(s, ch) == k,
    decreases s.len(),
{
    if s.len() > 0 && s[0] != ch {
        assert(k >= 1);
        let t = s.drop_first();
        assert(forall|j: int| 0 <= j < k - 1 ==> t[j] != ch);
        lemma_first_occ_is(t, ch, (k - 1) as nat);
    }
}

/// The characters of a string slice, in order.
pub fn chars_of(s: &str) -> (r: Vec<char>)
    ensures
        r@ == s@,
{
    let n = s.unicode_len();
    let mut r: Vec<char> = Vec::new();
    let mut i: usize = 0;
    while i < n
        invariant
            i <= n,
            n == s@.len(),
            r@ == s@.take(i as int),
        decreases n - i,
    {
        r.push(s.get_char(i));
        i = i + 1;
        proof {
            assert(s@.take(i as int) =~= s@.take(i - 1).push(s@[i - 1]));
        }
    }
    proof {
        assert(r@ =~= s@);
    }
    r
}

/// A fresh vector holding the characters of `cs` from `from` (inclusive) to
/// `to` (exclusive).
pub fn copy_range(cs: &Vec<char>, from: usize, to: usize) -> (r: Vec<char>)
    requires
        from <= to <= cs@.len(),
    ensures
        r@ == cs@.subrange(from as int, to as int),
{
    let mut r: Vec<char> = Vec::new();
    let mut j: usize = from;
    while j < to
        invariant
            from <= j <= to <= cs@.len(),
            r@ == cs@.subrange(from as int, j as int),
        decreases to - j,
    {
        r.push(cs[j]);
        j = j + 1;
        proof {
            assert(cs@.subrange(from as int, j as int) =~= cs@.subrange(
                from as int,
                j - 1,
            ).push(cs@[j - 1]));
        }
    }
    r
}

/// Appends every character of `src` to `out`.
pub fn push_all(out: &mut Vec<char>, src: &Vec<char>)
    ensures
        final(out)@ == old(out)@ + src@,
{
    let mut j: usize = 0;
    while j < src.len()
        invariant
            j <= src@.len(),
            out@ == old(out)@ + src@.take(j as int),
        decreases src@.len() - j,
    {
        out.push(src[j]);
        j = j + 1;
        proof {
            assert(old(out)@ + src@.take(j as int) =~= (old(out)@ + src@.take(j - 1)).push(
                src@[j - 1],
            ));
        }
    }
    proof {
        assert(old(out)@ + src@.take(src@.len() as int) =~= old(out)@ + src@);
    }
}

/// Checks whether `pat` occurs in `t` starting at `pos`.
pub fn token_at(t: &Vec<char>, pos: usize, pat: &Vec<char>) -> (b: bool)
    requires
        pos <= t@.len(),
    ensures
        b == pat@.is_prefix_of(t@.skip(pos as int)),
{
    proof {
        assert(t@.len() == t.len());
    }
    if t.len() - pos < pat.len() {
        return false;
    }
    let mut j: usize = 0;
    while j < pat.len()
        invariant
            j <= pat@.len(),
            pos + pat@.len() <= t@.len(),
            t@.len() <= usize::MAX,
            forall|m: int| 0 <= m < j ==> pat@[m] == t@[pos + m],
        decreases pat@.len() - j,
    {
        if t[pos + j] != pat[j] {
            proof {
                if pat@.is_prefix_of(t@.skip(pos as int)) {
                    assert(pat@[j as int] == t@.skip(pos as int).subrange(
                        0,
                        pat@.len() as int,
                    )[j as int]);
                    assert(false);
                }
            }
            return false;
        }
        j = j + 1;
    }
    proof {
        assert(pat@ =~= t@.skip(pos as int).subrange(0, pat@.len() as int));
    }
    true
}

} // verus!

