//! Stable orderings, computed as permutations of indices.
//!
//! Rust's `sort_by` is stable; these functions return the permutation that
//! such a sort applies, so that callers can rearrange records of any kind.

use vstd::prelude::*;

verus! {

/// `r` lists every index of `0..n` exactly once.
pub open spec fn is_permutation(r: Seq<usize>, n: nat) -> bool {
    &&& r.len() == n
    &&& forall|i: int| 0 <= i < r.len() ==> r[i] < n
    &&& forall|i: int, j: int| 0 <= i < j < r.len() ==> r[i] != r[j]
}

/// `r` orders `keys` by decreasing key, keeping the original order among
/// equal keys (what a stable sort by `b.cmp(&a)` yields).
pub open spec fn is_stable_desc_order(keys: Seq<u64>, r: Seq<usize>) -> bool {
    &&& is_permutation(r, keys.len())
    &&& forall|i: int, j: int| 0 <= i < j < r.len() ==> keys[r[i] as int] >= keys[r[j] as int]
    &&& forall|i: int, j: int|
        0 <= i < j < r.len() && keys[r[i] as int] == keys[r[j] as int] ==> r[i] < r[j]
}

/// Rank of a character. In path order (`paths` set) separators come before
/// everything else, so that comparing texts compares the paths component by
/// component; otherwise characters compare by code point, as `str` does.
pub open spec fn char_rank(c: char, paths: bool) -> int {
    if paths && (c == '/' || c == '\\') {
        0
    } else {
        c as int + 1
    }
}

/// Strict lexicographic order under `char_rank`.
pub open spec fn lex_lt(a: Seq<char>, b: Seq<char>, paths: bool) -> bool
    decreases a.len(),
{
    if a.len() == 0 {
        b.len() > 0
    } else if b.len() == 0 {
        false
    } else if char_rank(a[0], paths) < char_rank(b[0], paths) {
        true
    } else if char_rank(a[0], paths) > char_rank(b[0], paths) {
        false
    } else {
        lex_lt(a.drop_first(), b.drop_first(), paths)
    }
}

/// Neither text sorts before the other.
pub open spec fn lex_equiv(a: Seq<char>, b: Seq<char>, paths: bool) -> bool {
    !lex_lt(a, b, paths) && !lex_lt(b, a, paths)
}

/// `r` orders `keys` increasingly under `lex_lt`, stably.
pub open spec fn is_stable_lex_order(keys: Seq<Seq<char>>, r: Seq<usize>, paths: bool) -> bool {
    &&& is_permutation(r, keys.len())
    &&& forall|i: int, j: int|
        0 <= i < j < r.len() ==> !lex_lt(keys[r[j] as int], keys[r[i] as int], paths)
    &&& forall|i: int, j: int|
        0 <= i < j < r.len() && lex_equiv(keys[r[i] as int], keys[r[j] as int], paths) ==> r[i]
            < r[j]
}

/// `r` orders `keys` by increasing path order, stably.
pub open spec fn is_stable_path_order(keys: Seq<Seq<char>>, r: Seq<usize>) -> bool {
    is_stable_lex_order(keys, r, true)
}

pub proof fn lemma_lex_lt_irreflexive(a: Seq<char>, paths: bool)
    ensures
        !lex_lt(a, a, paths),
    decreases a.len(),
{
    if a.len() > 0 {
        lemma_lex_lt_irreflexive(a.drop_first(), paths);
    }
}

pub proof fn lemma_lex_lt_transitive(a: Seq<char>, b: Seq<char>, c: Seq<char>, paths: bool)
    requires
        lex_lt(a, b, paths),
        lex_lt(b, c, paths),
    ensures
        lex_lt(a, c, paths),
    decreases a.len(),
{
    if a.len() > 0 && b.len() > 0 && c.len() > 0 {
        if char_rank(a[0], paths) == char_rank(b[0], paths) && char_rank(b[0], paths) == char_rank(c[0], paths) {
            lemma_lex_lt_transitive(a.drop_first(), b.drop_first(), c.drop_first(), paths);
        }
    }
}

/// `a < b` and `c` not below `b` give `a < c`.
pub proof fn lemma_lex_lt_not_below(a: Seq<char>, b: Seq<char>, c: Seq<char>, paths: bool)
    requires
        lex_lt(a, b, paths),
        !lex_lt(c, b, paths),
    ensures
        lex_lt(a, c, paths),
    decreases a.len(),
{
    if a.len() == 0 {
        if c.len() == 0 {
            assert(lex_lt(c, b, paths));
        }
    } else if c.len() == 0 {
        assert(lex_lt(c, b, paths));
    } else {
        if char_rank(a[0], paths) == char_rank(b[0], paths) && char_rank(c[0], paths) == char_rank(b[0], paths) {
            lemma_lex_lt_not_below(a.drop_first(), b.drop_first(), c.drop_first(), paths);
        }
    }
}

fn char_rank_exec(c: char, paths: bool) -> (r: u64)
    ensures
        r == char_rank(c, paths),
{
    if paths && (c == '/' || c == '\\') {
        0
    } else {
        (c as u32) as u64 + 1
    }
}

/// Decides `lex_lt(a, b, paths)`.
pub fn lex_lt_exec(a: &Vec<char>, b: &Vec<char>, paths: bool) -> (r: bool)
    ensures
        r == lex_lt(a@, b@, paths),
{
    let mut i: usize = 0;
    assert(a@.subrange(0, a.len() as int) =~= a@);
    assert(b@.subrange(0, b.len() as int) =~= b@);
    while i < a.len() && i < b.len()
        invariant
            i <= a.len(),
            i <= b.len(),
            lex_lt(a@, b@, paths) == lex_lt(a@.subrange(i as int, a.len() as int), b@.subrange(i as int, b.len() as int), paths),
        decreases a.len() - i,
    {
        let ra = char_rank_exec(a[i], paths);
        let rb = char_rank_exec(b[i], paths);
        proof {
            let sa = a@.subrange(i as int, a.len() as int);
            let sb = b@.subrange(i as int, b.len() as int);
            assert(sa[0] == a@[i as int]);
            assert(sb[0] == b@[i as int]);
            assert(sa.drop_first() =~= a@.subrange(i + 1, a.len() as int));
            assert(sb.drop_first() =~= b@.subrange(i + 1, b.len() as int));
        }
        if ra < rb {
            return true;
        }
        if ra > rb {
            return false;
        }
        i = i + 1;
    }
    i == a.len() && i < b.len()
}

/// The permutation that a stable sort by decreasing key applies.
pub fn stable_desc_order(keys: &Vec<u64>) -> (r: Vec<usize>)
    ensures
        is_stable_desc_order(keys@, r@),
{
    let mut r: Vec<usize> = Vec::new();
    let mut idx: usize = 0;
    while idx < keys.len()
        invariant
            idx <= keys.len(),
            r@.len() == idx,
            forall|i: int| 0 <= i < r@.len() ==> r@[i] < idx,
            forall|i: int, j: int| 0 <= i < j < r@.len() ==> r@[i] != r@[j],
            forall|i: int, j: int|
                0 <= i < j < r@.len() ==> keys@[r@[i] as int] >= keys@[r@[j] as int],
            forall|i: int, j: int|
                0 <= i < j < r@.len() && keys@[r@[i] as int] == keys@[r@[j] as int] ==> r@[i]
                    < r@[j],
        decreases keys.len() - idx,
    {
        let k = keys[idx];
        let mut p: usize = 0;
        while p < r.len() && keys[r[p]] >= k
            invariant
                p <= r@.len(),
                forall|i: int| 0 <= i < r@.len() ==> r@[i] < idx,
                idx < keys.len(),
                k == keys@[idx as int],
                forall|q: int| 0 <= q < p ==> keys@[r@[q] as int] >= k,
            decreases r.len() - p,
        {
            p = p + 1;
        }
        let ghost old_r = r@;
        r.insert(p, idx);
        proof {
            assert(r@ == old_r.insert(p as int, idx));
            assert forall|q: int| p <= q < old_r.len() implies keys@[old_r[q] as int] < k by {
                if keys@[old_r[q] as int] >= k {
                    assert(keys@[old_r[p as int] as int] >= keys@[old_r[q] as int]);
                }
            }
        }
        idx = idx + 1;
    }
    r
}

/// The permutation that a stable sort by increasing `lex_lt` applies.
pub fn stable_lex_order(keys: &Vec<Vec<char>>, paths: bool) -> (r: Vec<usize>)
    ensures
        is_stable_lex_order(keys@.map_values(|k: Vec<char>| k@), r@, paths),
{
    let ghost ks = keys@.map_values(|k: Vec<char>| k@);
    let mut r: Vec<usize> = Vec::new();
    let mut idx: usize = 0;
    while idx < keys.len()
        invariant
            ks == keys@.map_values(|k: Vec<char>| k@),
            idx <= keys.len(),
            r@.len() == idx,
            forall|i: int| 0 <= i < r@.len() ==> r@[i] < idx,
            forall|i: int, j: int| 0 <= i < j < r@.len() ==> r@[i] != r@[j],
            forall|i: int, j: int|
                0 <= i < j < r@.len() ==> !lex_lt(ks[r@[j] as int], ks[r@[i] as int], paths),
            forall|i: int, j: int|
                0 <= i < j < r@.len() && lex_equiv(ks[r@[i] as int], ks[r@[j] as int], paths) ==> r@[i]
                    < r@[j],
        decreases keys.len() - idx,
    {
        let mut p: usize = 0;
        while p < r.len() && !lex_lt_exec(&keys[idx], &keys[r[p]], paths)
            invariant
                ks == keys@.map_values(|k: Vec<char>| k@),
                p <= r@.len(),
                forall|i: int| 0 <= i < r@.len() ==> r@[i] < idx,
                idx < keys.len(),
                forall|q: int| 0 <= q < p ==> !lex_lt(ks[idx as int], ks[r@[q] as int], paths),
            decreases r.len() - p,
        {
            p = p + 1;
        }
        let ghost old_r = r@;
        let ghost x = ks[idx as int];
        r.insert(p, idx);
        proof {
            assert(r@ == old_r.insert(p as int, idx));
            assert forall|q: int| p <= q < old_r.len() implies lex_lt(x, ks[old_r[q] as int], paths) by {
                if q > p {
                    lemma_lex_lt_not_below(x, ks[old_r[p as int] as int], ks[old_r[q] as int], paths);
                }
            }
            assert forall|q: int| p <= q < old_r.len() implies !lex_lt(ks[old_r[q] as int], x, paths) by {
                if lex_lt(ks[old_r[q] as int], x, paths) {
                    lemma_lex_lt_transitive(ks[old_r[q] as int], x, ks[old_r[q] as int], paths);
                    lemma_lex_lt_irreflexive(ks[old_r[q] as int], paths);
                }
            }
        }
        idx = idx + 1;
    }
    r
}

/// The permutation that a stable sort by increasing path order applies.
pub fn stable_path_order(keys: &Vec<Vec<char>>) -> (r: Vec<usize>)
    ensures
        is_stable_path_order(keys@.map_values(|k: Vec<char>| k@), r@),
{
    stable_lex_order(keys, true)
}

} // verus!
