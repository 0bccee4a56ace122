//! Reordering a list of distinct items does not change what a function of the
//! items gives, counted with multiplicity.
use vstd::prelude::*;

verus! {

/// Two lists without duplicates that hold the same items, mapped by `f`, give
/// the same multiset.
pub proof fn lemma_perm_map<A, B>(a: Seq<A>, b: Seq<A>, f: spec_fn(A) -> B)
    requires
        a.no_duplicates(),
        b.no_duplicates(),
        forall|x: A| a.contains(x) <==> b.contains(x),
    ensures
        a.map_values(f).to_multiset() == b.map_values(f).to_multiset(),
    decreases a.len(),
{
    broadcast use vstd::seq_lib::group_to_multiset_ensures;
    broadcast use vstd::multiset::group_multiset_axioms;

    if a.len() == 0 {
        if b.len() > 0 {
            assert(b.contains(b[0]));
        }
        assert(a.map_values(f) =~= Seq::<B>::empty());
        assert(b.map_values(f) =~= Seq::<B>::empty());
    } else {
        let x = a.last();
        let a0 = a.drop_last();
        assert(a.contains(x)) by {
            assert(a[a.len() - 1] == x);
        }
        assert(b.contains(x));
        let j = b.index_of(x);
        assert(0 <= j < b.len() && b[j] == x);
        let b0 = b.remove(j);
        assert(a0.no_duplicates()) by {
            assert forall|i: int, k: int| 0 <= i < a0.len() && 0 <= k < a0.len() && i != k implies a0[i] != a0[k] by {
                assert(a0[i] == a[i] && a0[k] == a[k]);
            }
        }
        assert(b0.no_duplicates()) by {
            assert forall|i: int, k: int| 0 <= i < b0.len() && 0 <= k < b0.len() && i != k implies b0[i] != b0[k] by {
                let bi = if i < j { i } else { i + 1 };
                let bk = if k < j { k } else { k + 1 };
                assert(b0[i] == b[bi] && b0[k] == b[bk]);
            }
        }
        assert forall|y: A| a0.contains(y) <==> b0.contains(y) by {
            if a0.contains(y) {
                let i = choose|i: int| 0 <= i < a0.len() && a0[i] == y;
                assert(a[i] == y);
                assert(y != x) by {
                    assert(a[a.len() - 1] == x);
                }
                assert(b.contains(y));
                let k = choose|k: int| 0 <= k < b.len() && b[k] == y;
                assert(k != j);
                if k < j {
                    assert(b0[k] == y);
                } else {
                    assert(b0[k - 1] == y);
                }
            }
            if b0.contains(y) {
                let k = choose|k: int| 0 <= k < b0.len() && b0[k] == y;
                let bk = if k < j { k } else { k + 1 };
                assert(b[bk] == y);
                assert(bk != j);
                assert(y != x);
                assert(a.contains(y));
                let i = choose|i: int| 0 <= i < a.len() && a[i] == y;
                assert(i != a.len() - 1);
                assert(a0[i] == y);
            }
        }
        lemma_perm_map(a0, b0, f);
        let am = a.map_values(f);
        let bm = b.map_values(f);
        assert(am =~= a0.map_values(f).push(f(x)));
        assert(bm.remove(j) =~= b0.map_values(f));
        assert(bm[j] == f(x));
        assert(bm.to_multiset().count(f(x)) > 0) by {
            assert(bm.contains(f(x)));
        }
        assert(bm.to_multiset() =~= bm.remove(j).to_multiset().insert(f(x)));
    }
}

} // verus!
