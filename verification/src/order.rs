//! Lexicographic order on character sequences, with the executable
//! comparisons and the sorting routine the roster reports rely on.

use vstd::prelude::*;
use vstd::relations::{sorted_by, total_ordering};
use vstd::seq_lib::{lemma_sorted_unique, group_to_multiset_ensures, to_multiset_insert,
    to_multiset_build};

verus! {

/// `a` comes no later than `b` in lexicographic order over character values.
pub open spec fn lex_le(a: Seq<char>, b: Seq<char>) -> bool
    decreases a.len(),
{
    if a.len() == 0 {
        true
    } else if b.len() == 0 {
        false
    } else if a[0] == b[0] {
        lex_le(a.drop_first(), b.drop_first())
    } else {
        (a[0] as u32) < (b[0] as u32)
    }
}

/// The lexicographic order as a binary relation value, in the form the
/// sequence-sorting lemmas of vstd expect.
pub open spec fn lex_leq() -> spec_fn(Seq<char>, Seq<char>) -> bool {
    |a: Seq<char>, b: Seq<char>| lex_le(a, b)
}

proof fn lemma_char_value_injective(c1: char, c2: char)
    requires
        c1 != c2,
    ensures
        (c1 as u32) != (c2 as u32),
{
}

pub proof fn lemma_lex_le_refl(a: Seq<char>)
    ensures
        lex_le(a, a),
    decreases a.len(),
{
    if a.len() > 0 {
        lemma_lex_le_refl(a.drop_first());
    }
}

pub proof fn lemma_lex_le_total(a: Seq<char>, b: Seq<char>)
    ensures
        lex_le(a, b) || lex_le(b, a),
    decreases a.len(),
{
    if a.len() > 0 && b.len() > 0 {
        if a[0] == b[0] {
            lemma_lex_le_total(a.drop_first(), b.drop_first());
        } else {
            lemma_char_value_injective(a[0], b[0]);
        }
    }
}

pub proof fn lemma_lex_le_antisym(a: Seq<char>, b: Seq<char>)
    requires
        lex_le(a, b),
        lex_le(b, a),
    ensures
        a == b,
    decreases a.len(),
{
    if a.len() == 0 {
        assert(b.len() == 0);
        assert(a =~= b);
    } else {
        assert(b.len() > 0);
        assert(a[0] == b[0]);
        if a[0] != b[0] {
            lemma_char_value_injective(a[0], b[0]);
        }
        lemma_lex_le_antisym(a.drop_first(), b.drop_first());
        assert(a.drop_first().len() == a.len() - 1);
        assert(b.drop_first().len() == b.len() - 1);
        assert(a.len() == b.len());
        assert forall|i: int| 0 <= i < a.len() implies a[i] == b[i] by {
            if i == 0 {
                assert(a[0] == b[0]);
            } else {
                assert(a.drop_first()[i - 1] == a[i]);
                assert(b.drop_first()[i - 1] == b[i]);
            }
        }
        assert(a =~= b);
    }
}

pub proof fn lemma_lex_le_trans(a: Seq<char>, b: Seq<char>, c: Seq<char>)
    requires
        lex_le(a, b),
        lex_le(b, c),
    ensures
        lex_le(a, c),
    decreases a.len(),
{
    if a.len() > 0 && b.len() > 0 && c.len() > 0 && a[0] == b[0] && b[0] == c[0] {
        lemma_lex_le_trans(a.drop_first(), b.drop_first(), c.drop_first());
    }
}

/// The lexicographic order is a total order, so sorting by it is
/// well-behaved and the sorted permutation of a sequence is unique.
pub proof fn lemma_lex_total_ordering()
    ensures
        total_ordering(lex_leq()),
{
    let leq = lex_leq();
    assert forall|a: Seq<char>| #[trigger] leq(a, a) by {
        lemma_lex_le_refl(a);
    }
    assert forall|a: Seq<char>, b: Seq<char>| #[trigger] leq(a, b) && #[trigger] leq(b, a)
        implies a == b by {
        lemma_lex_le_antisym(a, b);
    }
    assert forall|a: Seq<char>, b: Seq<char>, c: Seq<char>|
        #[trigger] leq(a, b) && #[trigger] leq(b, c) implies leq(a, c) by {
        lemma_lex_le_trans(a, b, c);
    }
    assert forall|a: Seq<char>, b: Seq<char>| #[trigger] leq(a, b) || #[trigger] leq(b, a) by {
        lemma_lex_le_total(a, b);
    }
}

/// Decides `lex_le` on string slices.
pub fn str_le(a: &str, b: &str) -> (r: bool)
    ensures
        r == lex_le(a@, b@),
{
    let a_len = a.unicode_len();
    let b_len = b.unicode_len();
    let n = if a_len < b_len { a_len } else { b_len };
    let mut i: usize = 0;
    proof {
        assert(a@.skip(0) =~= a@);
        assert(b@.skip(0) =~= b@);
    }
    while i < n
        invariant
            i <= n,
            n <= a_len,
            n <= b_len,
            a_len <= b_len ==> n == a_len,
            b_len <= a_len ==> n == b_len,
            a_len == a@.len(),
            b_len == b@.len(),
            lex_le(a@, b@) == lex_le(a@.skip(i as int), b@.skip(i as int)),
        decreases n - i,
    {
        let ca = a.get_char(i);
        let cb = b.get_char(i);
        if ca != cb {
            proof {
                assert(a@.skip(i as int)[0] == ca);
                assert(b@.skip(i as int)[0] == cb);
            }
            return (ca as u32) < (cb as u32);
        }
        proof {
            assert(a@.skip(i as int).drop_first() =~= a@.skip(i + 1));
            assert(b@.skip(i as int).drop_first() =~= b@.skip(i + 1));
        }
        i = i + 1;
    }
    if a_len <= b_len {
        proof {
            assert(a@.skip(i as int).len() == 0);
        }
        true
    } else {
        proof {
            assert(a@.skip(i as int).len() > 0);
            assert(b@.skip(i as int).len() == 0);
        }
        false
    }
}

/// Sorts strings into lexicographic order. The result is exactly the sorted
/// permutation of the input that `Seq::sort_by` describes.
pub fn sort_strings(v: &Vec<String>) -> (r: Vec<String>)
    ensures
        r.deep_view() == v.deep_view().sort_by(lex_leq()),
{
    broadcast use group_to_multiset_ensures;

    let ghost goal = v.deep_view();
    let mut out: Vec<String> = Vec::new();
    let mut idx: usize = 0;
    proof {
        assert(out.deep_view() =~= Seq::<Seq<char>>::empty());
        assert(goal.subrange(0, 0) =~= Seq::<Seq<char>>::empty());
        assert(out.deep_view().to_multiset() =~= goal.subrange(0, 0).to_multiset());
    }
    while idx < v.len()
        invariant
            idx <= v.len(),
            goal == v.deep_view(),
            sorted_by(out.deep_view(), lex_leq()),
            out.deep_view().to_multiset() == goal.subrange(0, idx as int).to_multiset(),
        decreases v.len() - idx,
    {
        let x = v[idx].clone();
        let ghost pre = out.deep_view();
        let ghost pre_v = out@;
        let mut k: usize = 0;
        while k < out.len() && str_le(out[k].as_str(), x.as_str())
            invariant
                k <= out.len(),
                out.deep_view() == pre,
                forall|j: int| 0 <= j < k ==> lex_le(pre[j], x@),
            decreases out.len() - k,
        {
            k = k + 1;
        }
        proof {
            if k < pre.len() {
                lemma_lex_le_total(pre[k as int], x@);
                assert(lex_le(x@, pre[k as int]));
            }
        }
        out.insert(k, x);
        proof {
            assert(out.deep_view() =~= pre.insert(k as int, x@)) by {
                assert(out@ == pre_v.insert(k as int, x));
                assert forall|j: int| 0 <= j < out.deep_view().len()
                    implies out.deep_view()[j] == pre.insert(k as int, x@)[j] by {
                    if j < k {
                        assert(out@[j] == pre_v[j]);
                    } else if j == k {
                        assert(out@[j] == x);
                    } else {
                        assert(out@[j] == pre_v[j - 1]);
                    }
                }
            }
            let cur = pre.insert(k as int, x@);
            let leq = lex_leq();
            pre.insert_ensures(k as int, x@);
            assert forall|p: int, q: int| 0 <= p < q < cur.len()
                implies leq(cur[p], cur[q]) by {
                if q < k {
                    assert(cur[p] == pre[p]);
                    assert(cur[q] == pre[q]);
                    assert(leq(pre[p], pre[q]));
                } else if q == k {
                    assert(cur[p] == pre[p]);
                    assert(cur[q] == x@);
                    assert(lex_le(pre[p], x@));
                } else {
                    // q > k, so k is not past the end of pre
                    assert(k < pre.len());
                    assert(cur[q] == pre[q - 1]);
                    assert(lex_le(x@, pre[k as int]));
                    if p < k {
                        assert(cur[p] == pre[p]);
                        assert(lex_le(pre[p], x@));
                        if q - 1 == k {
                            lemma_lex_le_trans(pre[p], x@, pre[k as int]);
                        } else {
                            assert(leq(pre[k as int], pre[q - 1]));
                            lemma_lex_le_trans(x@, pre[k as int], pre[q - 1]);
                            lemma_lex_le_trans(pre[p], x@, pre[q - 1]);
                        }
                    } else if p == k {
                        assert(cur[p] == x@);
                        if q - 1 > k {
                            assert(leq(pre[k as int], pre[q - 1]));
                            lemma_lex_le_trans(x@, pre[k as int], pre[q - 1]);
                        }
                    } else {
                        assert(cur[p] == pre[p - 1]);
                        assert(leq(pre[p - 1], pre[q - 1]));
                    }
                }
            }
            to_multiset_insert(pre, k as int, x@);
            assert(cur.to_multiset() == pre.to_multiset().insert(x@));
            assert(x@ == goal[idx as int]);
            assert(goal.subrange(0, idx + 1) =~= goal.subrange(0, idx as int).push(goal[idx as int]));
            to_multiset_build(goal.subrange(0, idx as int), goal[idx as int]);
            assert(goal.subrange(0, idx + 1).to_multiset()
                =~= goal.subrange(0, idx as int).to_multiset().insert(goal[idx as int]));
        }
        idx = idx + 1;
    }
    proof {
        assert(goal.subrange(0, idx as int) =~= goal);
        lemma_lex_total_ordering();
        goal.lemma_sort_by_ensures(lex_leq());
        lemma_sorted_unique(out.deep_view(), goal.sort_by(lex_leq()), lex_leq());
    }
    out
}

/// Decides equality of the character sequences of two string slices.
pub fn str_eq(a: &str, b: &str) -> (r: bool)
    ensures
        r == (a@ == b@),
{
    let a_len = a.unicode_len();
    let b_len = b.unicode_len();
    if a_len != b_len {
        return false;
    }
    let mut i: usize = 0;
    while i < a_len
        invariant
            i <= a_len,
            a_len == a@.len(),
            a_len == b@.len(),
            forall|j: int| 0 <= j < i ==> a@[j] == b@[j],
        decreases a_len - i,
    {
        if a.get_char(i) != b.get_char(i) {
            return false;
        }
        i = i + 1;
    }
    proof {
        assert(a@ =~= b@);
    }
    true
}

} // verus!
