//! Ordering scored items, best score first.
use crate::bits::{rank, rank_of};
use vstd::prelude::*;

verus! {

/// `p` says from which place of `items` each place of `out` was taken: every
/// place once, better scores first and equal ones in the order they had.
pub open spec fn ranks_by<T>(items: Seq<(T, u32)>, out: Seq<(T, u32)>, p: Seq<int>) -> bool {
    &&& out.len() == items.len()
    &&& p.len() == items.len()
    &&& p.no_duplicates()
    &&& forall|i: int|
        0 <= i < p.len() ==> 0 <= #[trigger] p[i] < items.len() && out[i] == items[p[i]]
    &&& forall|i: int, j: int|
        0 <= i < j < p.len() ==> rank((#[trigger] out[i]).1) > rank((#[trigger] out[j]).1) || (rank(
            out[i].1,
        ) == rank(out[j].1) && p[i] < p[j])
}

/// `out` holds the items of `items`, better scores first and equal ones in the
/// order they had.
pub open spec fn is_ranked<T>(items: Seq<(T, u32)>, out: Seq<(T, u32)>) -> bool {
    exists|p: Seq<int>| ranks_by(items, out, p)
}

/// The items with better scores first and equal ones in the order they had.
pub fn ranked<T: Copy>(items: &Vec<(T, u32)>) -> (out: Vec<(T, u32)>)
    ensures
        is_ranked(items@, out@),
{
    let mut out: Vec<(T, u32)> = Vec::new();
    let ghost mut p: Seq<int> = Seq::empty();
    let mut i: usize = 0;
    proof {
        assert(ranks_by(items@.take(0), out@, p));
    }
    while i < items.len()
        invariant
            i <= items@.len(),
            ranks_by(items@.take(i as int), out@, p),
        decreases items@.len() - i,
    {
        let x = items[i];
        let key: i64 = rank_of(x.1);
        let mut at: usize = out.len();
        while at > 0 && rank_of(out[at - 1].1) < key
            invariant
                at <= out@.len(),
                key == rank(x.1),
                forall|j: int| at <= j < out@.len() ==> rank((#[trigger] out@[j]).1) < key,
            decreases at,
        {
            at -= 1;
        }
        let ghost o = out@;
        let ghost q = p.insert(at as int, i as int);
        out.insert(at, x);
        proof {
            lemma_insert(items@, i as int, o, p, at as int);
            p = q;
        }
        i += 1;
    }
    proof {
        assert(items@.take(i as int) =~= items@);
    }
    out
}

proof fn lemma_insert<T>(items: Seq<(T, u32)>, n: int, o: Seq<(T, u32)>, p: Seq<int>, at: int)
    requires
        0 <= n < items.len(),
        ranks_by(items.take(n), o, p),
        0 <= at <= o.len(),
        forall|j: int| at <= j < o.len() ==> rank((#[trigger] o[j]).1) < rank(items[n].1),
        at > 0 ==> rank(o[at - 1].1) >= rank(items[n].1),
    ensures
        ranks_by(items.take(n + 1), o.insert(at, items[n]), p.insert(at, n)),
{
    let x = items[n];
    let a = o.insert(at, x);
    let q = p.insert(at, n);
    let t = items.take(n + 1);
    assert(forall|i: int| 0 <= i < n ==> t[i] == items.take(n)[i]);
    assert(t[n] == x);
    assert forall|i: int| 0 <= i < at implies rank((#[trigger] o[i]).1) >= rank(x.1) by {
        if i < at - 1 {
            assert(rank(o[i].1) >= rank(o[at - 1].1));
        }
    }
    assert forall|i: int, j: int| 0 <= i < q.len() && 0 <= j < q.len() && i != j implies q[i]
        != q[j] by {
        let u = if i < at { i } else { i - 1 };
        let v = if j < at { j } else { j - 1 };
        if i != at && j != at {
            assert(p[u] != p[v]);
        } else if i == at {
            assert(0 <= p[v] < n);
        } else {
            assert(0 <= p[u] < n);
        }
    }
    assert forall|i: int| 0 <= i < q.len() implies 0 <= #[trigger] q[i] < t.len() && a[i]
        == t[q[i]] by {
        if i < at {
            assert(o[i] == items.take(n)[p[i]]);
        } else if i > at {
            assert(q[i] == p[i - 1]);
            assert(o[i - 1] == items.take(n)[p[i - 1]]);
        }
    }
    assert forall|i: int, j: int| 0 <= i < j < q.len() implies rank((#[trigger] a[i]).1) > rank(
        (#[trigger] a[j]).1,
    ) || (rank(a[i].1) == rank(a[j].1) && q[i] < q[j]) by {
        let u = if i < at { i } else { i - 1 };
        let v = if j < at { j } else { j - 1 };
        if i != at && j != at {
            assert(a[i] == o[u] && a[j] == o[v]);
        } else if i == at {
            assert(a[j] == o[v]);
        } else {
            assert(a[i] == o[u]);
            assert(0 <= p[u] < n);
        }
    }
}

/// Ranking settles the order: two rankings of the same items are the same.
pub proof fn law_ranking_unique<T>(items: Seq<(T, u32)>, a: Seq<(T, u32)>, b: Seq<(T, u32)>)
    requires
        is_ranked(items, a),
        is_ranked(items, b),
    ensures
        a == b,
{
    let p = choose|p: Seq<int>| ranks_by(items, a, p);
    let q = choose|q: Seq<int>| ranks_by(items, b, q);
    lemma_same_places(items, a, b, p, q, 0);
    assert forall|i: int| 0 <= i < a.len() implies a[i] == b[i] by {
        assert(a[i] == items[p[i]] && b[i] == items[q[i]]);
    }
    assert(a =~= b);
}

/// Item `m` is to stand before item `n`.
spec fn before<T>(items: Seq<(T, u32)>, m: int, n: int) -> bool {
    rank(items[m].1) > rank(items[n].1) || (rank(items[m].1) == rank(items[n].1) && m < n)
}

proof fn lemma_same_places<T>(
    items: Seq<(T, u32)>,
    a: Seq<(T, u32)>,
    b: Seq<(T, u32)>,
    p: Seq<int>,
    q: Seq<int>,
    from: int,
)
    requires
        ranks_by(items, a, p),
        ranks_by(items, b, q),
        0 <= from <= items.len(),
        forall|i: int| 0 <= i < from ==> p[i] == q[i],
    ensures
        p == q,
    decreases items.len() - from,
{
    if from == items.len() {
        assert(p =~= q);
    } else {
        if p[from] != q[from] {
            let i = lemma_found(p, items.len(), q[from]);
            let j = lemma_found(q, items.len(), p[from]);
            assert(i > from) by {
                if i < from {
                    assert(q[i] == q[from]);
                }
            }
            assert(j > from) by {
                if j < from {
                    assert(p[j] == p[from]);
                }
            }
            assert(a[from] == items[p[from]] && a[i] == items[p[i]]);
            assert(b[from] == items[q[from]] && b[j] == items[q[j]]);
            assert(before(items, p[from], p[i]));
            assert(before(items, q[from], q[j]));
            assert(false);
        }
        lemma_same_places(items, a, b, p, q, from + 1);
    }
}

/// A list of `n` different places below `n` holds each of them.
pub(crate) proof fn lemma_found(p: Seq<int>, n: nat, x: int) -> (i: int)
    requires
        p.len() == n,
        p.no_duplicates(),
        forall|i: int| 0 <= i < n ==> 0 <= #[trigger] p[i] < n,
        0 <= x < n,
    ensures
        0 <= i < n,
        p[i] == x,
{
    let s = p.to_set();
    let all = vstd::set_lib::set_int_range(0, n as int);
    p.unique_seq_to_set();
    vstd::set_lib::lemma_int_range(0, n as int);
    assert(s.subset_of(all));
    vstd::set_lib::lemma_subset_equality(s, all);
    assert(all.contains(x));
    assert(p.contains(x));
    p.index_of(x)
}

/// A ranking holds the items that were ranked, each as often as it was there, better scores
/// first, and of equal scores the one that came first.
pub proof fn law_ranking_sorts<T>(items: Seq<(T, u32)>, out: Seq<(T, u32)>, x: (T, u32), i: int)
    requires
        is_ranked(items, out),
    ensures
        out.len() == items.len(),
        out.contains(x) <==> items.contains(x),
        0 <= i < out.len() - 1 ==> rank(out[i].1) >= rank(out[i + 1].1),
        exists|p: Seq<int>|
            {
                &&& p.len() == items.len()
                &&& forall|a: int| 0 <= a < p.len() ==> 0 <= #[trigger] p[a] < items.len()
                &&& forall|a: int| 0 <= a < p.len() ==> out[a] == items[#[trigger] p[a]]
                &&& forall|a: int, b: int|
                    0 <= a < b < p.len() ==> #[trigger] p[a] != #[trigger] p[b]
                &&& forall|a: int, b: int|
                    0 <= a < b < p.len() && rank(out[a].1) == rank(out[b].1) ==> #[trigger] p[a]
                        < #[trigger] p[b]
            },
{
    let p = choose|p: Seq<int>| ranks_by(items, out, p);
    if out.contains(x) {
        let a = out.index_of(x);
        assert(0 <= p[a] < items.len() && items[p[a]] == x);
    }
    if items.contains(x) {
        let a = lemma_found(p, items.len(), items.index_of(x));
        assert(out[a] == items[p[a]]);
    }
    if 0 <= i < out.len() - 1 {
        assert(rank(out[i].1) >= rank(out[i + 1].1));
    }
    assert forall|a: int, b: int| 0 <= a < b < p.len() && rank(out[a].1) == rank(
        out[b].1,
    ) implies #[trigger] p[a] < #[trigger] p[b] by {
        assert(rank(out[a].1) >= rank(out[b].1));
    }
}

} // verus!
