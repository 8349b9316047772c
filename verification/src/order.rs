//! Orderings shared by the sorts of the library: lexicographic order on
//! scalar sequences, which is the order of `String`, and a stable sort of
//! scored positions by descending score.
use vstd::prelude::*;
use crate::text::seq_lt;

verus! {

pub proof fn lemma_seq_lt_irreflexive(a: Seq<char>)
    ensures
        !seq_lt(a, a),
    decreases a.len(),
{
    if a.len() > 0 {
        lemma_seq_lt_irreflexive(a.drop_first());
    }
}

pub proof fn lemma_seq_lt_asym(a: Seq<char>, b: Seq<char>)
    ensures
        seq_lt(a, b) ==> !seq_lt(b, a),
    decreases a.len(),
{
    if a.len() > 0 && b.len() > 0 && a[0] == b[0] {
        lemma_seq_lt_asym(a.drop_first(), b.drop_first());
    }
}

pub proof fn lemma_seq_lt_total(a: Seq<char>, b: Seq<char>)
    ensures
        a != b ==> seq_lt(a, b) || seq_lt(b, a),
    decreases a.len(),
{
    if a.len() > 0 && b.len() > 0 && a[0] == b[0] {
        lemma_seq_lt_total(a.drop_first(), b.drop_first());
        if a.drop_first() == b.drop_first() {
            assert forall|i: int| 0 <= i < a.len() implies a[i] == b[i] by {
                if i > 0 {
                    assert(a[i] == a.drop_first()[i - 1]);
                    assert(b[i] == b.drop_first()[i - 1]);
                }
            }
            assert(a =~= b);
        }
    } else if a.len() == 0 && b.len() == 0 {
        assert(a =~= b);
    }
}

pub proof fn lemma_seq_lt_trans(a: Seq<char>, b: Seq<char>, c: Seq<char>)
    ensures
        seq_lt(a, b) && seq_lt(b, c) ==> seq_lt(a, c),
    decreases a.len(),
{
    if a.len() > 0 && b.len() > 0 && c.len() > 0 {
        lemma_seq_lt_trans(a.drop_first(), b.drop_first(), c.drop_first());
    }
}

/// `out` is `input` ordered by descending score, entries with equal
/// scores in input order: `idx` tells where each entry came from.
pub open spec fn score_sorted(input: Seq<(usize, i64)>, out: Seq<(usize, i64)>) -> bool {
    exists|idx: Seq<int>|
        #![trigger crate::sync::is_permutation(idx, input.len() as int)]
        crate::sync::is_permutation(idx, input.len() as int) && out.len() == input.len() && (forall|k: int|
            0 <= k < out.len() ==> #[trigger] out[k] == input[idx[k]]) && (forall|a: int, b: int|
            0 <= a < b < out.len() ==> (#[trigger] out[a]).1 > (#[trigger] out[b]).1 || (out[a].1 == out[b].1
                && idx[a] < idx[b]))
}

/// Sorts scored positions by descending score, stably.
pub fn sort_by_score_desc(items: Vec<(usize, i64)>) -> (out: Vec<(usize, i64)>)
    ensures
        score_sorted(items@, out@),
{
    let ghost iv = items@;
    let ghost n = items@.len() as int;
    let len0 = items.len();
    assert(n == len0);
    let mut rest = items;
    let mut out: Vec<(usize, i64)> = Vec::new();
    let ghost mut idx: Seq<int> = Seq::empty();
    let mut i: usize = 0;
    while rest.len() > 0
        invariant
            i <= n,
            n <= usize::MAX,
            iv.len() == n,
            rest@ == iv.subrange(i as int, n),
            out@.len() == i,
            idx.len() == i,
            forall|k: int| 0 <= k < i ==> 0 <= #[trigger] idx[k] < i,
            forall|a: int, b: int| 0 <= a < b < i ==> #[trigger] idx[a] != #[trigger] idx[b],
            forall|k: int| 0 <= k < i ==> #[trigger] out@[k] == iv[idx[k]],
            forall|a: int, b: int| 0 <= a < b < i ==> (#[trigger] out@[a]).1 > (#[trigger] out@[b]).1 || (out@[a].1
                == out@[b].1 && idx[a] < idx[b]),
        decreases rest@.len(),
    {
        let ghost rb = rest@;
        let x = rest.remove(0);
        proof {
            assert(rest@ =~= iv.subrange(i + 1, n));
            assert(x == iv[i as int]);
        }
        let mut p: usize = 0;
        while p < out.len()
            invariant
                p <= out.len(),
                forall|a: int| 0 <= a < p ==> x.1 <= (#[trigger] out@[a]).1,
            ensures
                p <= out.len(),
                forall|a: int| 0 <= a < p ==> x.1 <= (#[trigger] out@[a]).1,
                p < out.len() ==> x.1 > out@[p as int].1,
            decreases out.len() - p,
        {
            if x.1 > out[p].1 {
                break;
            }
            p += 1;
        }
        let ghost ob = out@;
        let ghost ib = idx;
        out.insert(p, x);
        proof {
            idx = ib.insert(p as int, i as int);
            assert(out@ =~= ob.insert(p as int, x));
            assert forall|k: int| 0 <= k < i + 1 implies 0 <= #[trigger] idx[k] < i + 1 by {
                if k < p { assert(idx[k] == ib[k]); } else if k > p { assert(idx[k] == ib[k - 1]); }
            }
            assert forall|a: int, b: int| 0 <= a < b < i + 1 implies #[trigger] idx[a] != #[trigger] idx[b] by {
                if a < p && b < p { assert(idx[a] == ib[a] && idx[b] == ib[b]); }
                else if a < p && b == p { assert(idx[a] == ib[a]); }
                else if a < p { assert(idx[a] == ib[a] && idx[b] == ib[b - 1]); }
                else if a == p { assert(idx[b] == ib[b - 1]); }
                else { assert(idx[a] == ib[a - 1] && idx[b] == ib[b - 1]); }
            }
            assert forall|k: int| 0 <= k < i + 1 implies #[trigger] out@[k] == iv[idx[k]] by {
                if k < p { assert(out@[k] == ob[k] && idx[k] == ib[k]); }
                else if k > p { assert(out@[k] == ob[k - 1] && idx[k] == ib[k - 1]); }
            }
            assert forall|a: int, b: int| 0 <= a < b < i + 1 implies (#[trigger] out@[a]).1 > (#[trigger] out@[b]).1
                || (out@[a].1 == out@[b].1 && idx[a] < idx[b]) by {
                if a < p && b < p {
                    assert(out@[a] == ob[a] && out@[b] == ob[b] && idx[a] == ib[a] && idx[b] == ib[b]);
                } else if a < p && b == p {
                    assert(out@[a] == ob[a] && idx[a] == ib[a]);
                } else if a < p {
                    assert(out@[a] == ob[a] && out@[b] == ob[b - 1] && idx[a] == ib[a] && idx[b] == ib[b - 1]);
                } else if a == p {
                    assert(out@[b] == ob[b - 1]);
                } else {
                    assert(out@[a] == ob[a - 1] && out@[b] == ob[b - 1] && idx[a] == ib[a - 1] && idx[b] == ib[b - 1]);
                }
            }
        }
        i += 1;
    }
    proof {
        assert(crate::sync::is_permutation(idx, n));
    }
    out
}

} // verus!
