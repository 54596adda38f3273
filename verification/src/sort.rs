//! A stable insertion sort: items with equal keys keep their order, as with
//! `slice::sort` and `slice::sort_by`.

use vstd::prelude::*;
use vstd::multiset::Multiset;

use crate::text::{lex_lt, lemma_lex_asymmetric, lemma_lex_irreflexive, lemma_lex_total, lemma_lex_transitive};

verus! {

/// Items ordered by a key compared lexicographically.
pub trait SortKey {
    spec fn sort_key(&self) -> Seq<int>;

    fn key_less(&self, other: &Self) -> (r: bool)
        ensures
            r == lex_lt(self.sort_key(), other.sort_key()),
    ;
}

/// No item comes after one with a smaller key.
pub open spec fn sorted_by_key<T: SortKey>(s: Seq<T>) -> bool {
    forall|i: int, j: int| 0 <= i < j < s.len() ==> !lex_lt(#[trigger] s[j].sort_key(), #[trigger] s[i].sort_key())
}

/// How many items of `acc` do not come after `x`.
pub open spec fn count_not_after<T: SortKey>(acc: Seq<T>, x: T) -> nat {
    acc.filter(|e: T| !lex_lt(x.sort_key(), e.sort_key())).len()
}

/// `x` inserted after every item whose key is not greater than its own.
pub open spec fn stable_insert<T: SortKey>(acc: Seq<T>, x: T) -> Seq<T> {
    acc.insert(count_not_after(acc, x) as int, x)
}

/// Insertion sort of `s`, front to back.
pub open spec fn insertion_sorted<T: SortKey>(acc: Seq<T>, s: Seq<T>) -> Seq<T>
    decreases s.len(),
{
    if s.len() == 0 {
        acc
    } else {
        insertion_sorted(stable_insert(acc, s[0]), s.drop_first())
    }
}

proof fn lemma_count_not_after<T: SortKey>(acc: Seq<T>, x: T, p: int)
    requires
        0 <= p <= acc.len(),
        forall|k: int| 0 <= k < p ==> !lex_lt(x.sort_key(), #[trigger] acc[k].sort_key()),
        forall|k: int| p <= k < acc.len() ==> lex_lt(x.sort_key(), #[trigger] acc[k].sort_key()),
    ensures
        count_not_after(acc, x) == p,
    decreases acc.len(),
{
    reveal(Seq::filter);
    if acc.len() > 0 {
        let init = acc.drop_last();
        if p == acc.len() {
            lemma_count_not_after(init, x, p - 1);
        } else {
            lemma_count_not_after(init, x, p);
        }
    }
}

/// Sorts `v` by key, keeping the order of items with equal keys.
pub fn stable_sort<T: SortKey>(v: Vec<T>) -> (r: Vec<T>)
    ensures
        r@ == insertion_sorted(Seq::<T>::empty(), v@),
        sorted_by_key(r@),
        r@.to_multiset() == v@.to_multiset(),
{
    let ghost all = v@;
    let mut out: Vec<T> = Vec::new();
    let mut rest = v;
    proof {
        broadcast use vstd::multiset::group_multiset_axioms;
        assert(all.skip(0) =~= all);
        vstd::seq_lib::to_multiset_len(Seq::<T>::empty());
        assert(out@.to_multiset() =~= Multiset::<T>::empty());
        assert(out@.to_multiset().add(all.to_multiset()) =~= all.to_multiset());
    }
    let mut i: usize = 0;
    let n = rest.len();
    // Take items from the back after reversing, so each step is a `pop`.
    let mut pending: Vec<T> = Vec::new();
    while rest.len() > 0
        invariant
            rest@.len() + pending@.len() == n,
            all == rest@ + pending@.reverse(),
        decreases rest.len(),
    {
        let x = rest.pop().unwrap();
        pending.push(x);
        proof {
            assert(all =~= rest@ + pending@.reverse());
        }
    }
    proof {
        assert(pending@.reverse() =~= all);
    }
    while pending.len() > 0
        invariant
            i + pending@.len() == n,
            i <= n,
            all.len() == n,
            pending@.reverse() == all.skip(i as int),
            sorted_by_key(out@),
            insertion_sorted(Seq::<T>::empty(), all) == insertion_sorted(out@, all.skip(i as int)),
            out@.to_multiset().add(all.skip(i as int).to_multiset()) == all.to_multiset(),
        decreases pending.len(),
    {
        let ghost pend = pending@;
        let x = pending.pop().unwrap();
        proof {
            assert(pend.reverse()[0] == x);
            assert(pending@.reverse() =~= pend.reverse().drop_first());
            assert(all.skip(i as int)[0] == x);
            assert(all.skip(i as int).drop_first() =~= all.skip(i + 1));
        }
        let ghost acc = out@;
        let m = out.len();
        let mut p: usize = 0;
        while p < m
            invariant
                m == out@.len(),
                out@ == acc,
                sorted_by_key(acc),
                p <= m,
                forall|k: int| 0 <= k < p ==> !lex_lt(x.sort_key(), #[trigger] acc[k].sort_key()),
            ensures
                p <= m,
                forall|k: int| 0 <= k < p ==> !lex_lt(x.sort_key(), #[trigger] acc[k].sort_key()),
                p < m ==> lex_lt(x.sort_key(), acc[p as int].sort_key()),
            decreases m - p,
        {
            if x.key_less(&out[p]) {
                break;
            }
            p += 1;
        }
        proof {
            assert forall|k: int| p <= k < m implies lex_lt(x.sort_key(), #[trigger] acc[k].sort_key()) by {
                if k > p {
                    lemma_lex_total(acc[p as int].sort_key(), acc[k].sort_key());
                    if lex_lt(acc[k].sort_key(), acc[p as int].sort_key()) {
                        assert(!lex_lt(acc[k].sort_key(), acc[p as int].sort_key()));
                    }
                    if acc[p as int].sort_key() == acc[k].sort_key() {
                    } else {
                        lemma_lex_transitive(x.sort_key(), acc[p as int].sort_key(), acc[k].sort_key());
                    }
                }
            }
            lemma_count_not_after(acc, x, p as int);
        }
        out.insert(p, x);
        proof {
            let no = out@;
            assert(no =~= acc.insert(p as int, x));
            assert forall|a: int, b: int| 0 <= a < b < no.len() implies !lex_lt(
                #[trigger] no[b].sort_key(),
                #[trigger] no[a].sort_key(),
            ) by {
                if b < p {
                } else if b == p {
                    assert(!lex_lt(x.sort_key(), acc[a].sort_key()));
                    lemma_lex_total(x.sort_key(), acc[a].sort_key());
                    if acc[a].sort_key() != x.sort_key() {
                        lemma_lex_asymmetric(acc[a].sort_key(), x.sort_key());
                    } else {
                        lemma_lex_irreflexive(x.sort_key());
                    }
                } else if a < p {
                    assert(no[b] == acc[b - 1]);
                    assert(lex_lt(x.sort_key(), acc[b - 1].sort_key()));
                    assert(!lex_lt(x.sort_key(), acc[a].sort_key()));
                    if lex_lt(acc[b - 1].sort_key(), acc[a].sort_key()) {
                        lemma_lex_transitive(x.sort_key(), acc[b - 1].sort_key(), acc[a].sort_key());
                    }
                } else if a == p {
                    assert(no[b] == acc[b - 1]);
                    lemma_lex_asymmetric(x.sort_key(), acc[b - 1].sort_key());
                } else {
                    assert(no[a] == acc[a - 1]);
                    assert(no[b] == acc[b - 1]);
                }
            }
            broadcast use vstd::multiset::group_multiset_axioms;
            vstd::seq_lib::to_multiset_insert(acc, p as int, x);
            let rest_seq = all.skip(i + 1);
            assert(all.skip(i as int) =~= seq![x] + rest_seq);
            vstd::seq_lib::lemma_multiset_commutative(seq![x], rest_seq);
            vstd::seq_lib::to_multiset_build(Seq::<T>::empty(), x);
            assert(Seq::<T>::empty().push(x) =~= seq![x]);
            vstd::seq_lib::to_multiset_len(Seq::<T>::empty());
            assert(Seq::<T>::empty().to_multiset() =~= Multiset::<T>::empty());
            assert(out@.to_multiset().add(rest_seq.to_multiset()) =~= acc.to_multiset().add(
                all.skip(i as int).to_multiset(),
            ));
        }
        i += 1;
    }
    proof {
        assert(all.skip(n as int) =~= Seq::<T>::empty());
        broadcast use vstd::multiset::group_multiset_axioms;
        vstd::seq_lib::to_multiset_len(Seq::<T>::empty());
        assert(Seq::<T>::empty().to_multiset() =~= Multiset::<T>::empty());
        assert(out@.to_multiset().add(Seq::<T>::empty().to_multiset()) =~= out@.to_multiset());
    }
    out
}

} // verus!
