//! The data of a store's entries, kept in a `Vec` by entry index: a slot per
//! index, filled while the entry exists.
use vstd::prelude::*;
use crate::EntryId;
use crate::outside::filled_indices;

verus! {

/// The slots of `s` with the filled ones given, in order, the elements of `f`.
pub open spec fn refill<T>(s: Seq<Option<T>>, f: Seq<T>) -> Seq<Option<T>>
    decreases s.len(),
{
    if s.len() == 0 {
        Seq::empty()
    } else if s.last() is Some {
        refill(s.drop_last(), f.drop_last()).push(Some(f.last()))
    } else {
        refill(s.drop_last(), f).push(None)
    }
}

/// The filled slots of `s` are slots of `s`, and filled.
pub proof fn lemma_filled_indices_in<T>(s: Seq<Option<T>>)
    requires
        s.len() <= usize::MAX,
    ensures
        forall|k: int|
            0 <= k < filled_indices(s).len() ==> #[trigger] filled_indices(s)[k] < s.len() && s[filled_indices(
                s,
            )[k] as int] is Some,
    decreases s.len(),
{
    if s.len() > 0 {
        let s0 = s.drop_last();
        lemma_filled_indices_in(s0);
        let fi0 = filled_indices(s0);
        assert forall|k: int| 0 <= k < filled_indices(s).len() implies #[trigger] filled_indices(s)[k] < s.len()
            && s[filled_indices(s)[k] as int] is Some by {
            if k < fi0.len() {
                assert(filled_indices(s)[k] == fi0[k]);
                assert(s[fi0[k] as int] == s0[fi0[k] as int]);
            }
        }
    }
}

/// Refilling keeps the empty slots empty and puts the `k`th element in the
/// `k`th filled slot.
pub proof fn lemma_refill<T>(s: Seq<Option<T>>, f: Seq<T>)
    requires
        s.len() <= usize::MAX,
        f.len() == filled_indices(s).len(),
    ensures
        refill(s, f).len() == s.len(),
        forall|j: int| 0 <= j < s.len() && s[j] is None ==> (#[trigger] refill(s, f)[j]) is None,
        forall|k: int| 0 <= k < f.len() ==> refill(s, f)[#[trigger] filled_indices(s)[k] as int] == Some(f[k]),
    decreases s.len(),
{
    if s.len() > 0 {
        let s0 = s.drop_last();
        let fi0 = filled_indices(s0);
        lemma_filled_indices_in(s0);
        if s.last() is Some {
            let f0 = f.drop_last();
            lemma_refill(s0, f0);
            assert(filled_indices(s) == fi0.push((s.len() - 1) as usize));
            assert(refill(s, f) == refill(s0, f0).push(Some(f.last())));
            assert forall|j: int| 0 <= j < s.len() && s[j] is None implies (#[trigger] refill(s, f)[j]) is None by {
                assert(s0[j] == s[j]);
            }
            assert forall|k: int| 0 <= k < f.len() implies refill(s, f)[#[trigger] filled_indices(s)[k] as int] == Some(f[k]) by {
                if k < f0.len() {
                    assert(filled_indices(s)[k] == fi0[k]);
                    assert(f0[k] == f[k]);
                    assert(fi0[k] < s0.len());
                } else {
                    assert(filled_indices(s)[k] == s.len() - 1);
                }
            }
        } else {
            lemma_refill(s0, f);
            assert forall|j: int| 0 <= j < s.len() && s[j] is None implies (#[trigger] refill(s, f)[j]) is None by {
                if j < s0.len() {
                    assert(s0[j] == s[j]);
                }
            }
        }
    }
}

/// Every filled slot of `v`, with its index as an [`EntryId`] and its element
/// to be changed in place, in increasing order of index.
pub fn filled_mut<T>(v: &mut Vec<Option<T>>) -> (r: Vec<(EntryId, &mut T)>)
    ensures
        r@.len() == filled_indices(old(v)@).len(),
        forall|i: int|
            0 <= i < r@.len() ==> r@[i].0.id() == filled_indices(old(v)@)[i] && old(v)@[r@[i].0.id() as int]
                == Some(*r@[i].1),
        final(v)@ == refill(old(v)@, Seq::new(r@.len(), |i: int| *final(r@[i].1))),
{
    let ghost s0 = v@;
    let n = v.len();
    let mut rest: &mut [Option<T>] = v.as_mut_slice();
    let mut r: Vec<(EntryId, &mut T)> = Vec::new();
    let mut i: usize = 0;
    while rest.len() > 0
        invariant
            0 <= i <= s0.len(),
            s0.len() <= usize::MAX,
            rest@ == s0.subrange(i as int, s0.len() as int),
            r@.len() == filled_indices(s0.take(i as int)).len(),
            forall|k: int|
                0 <= k < r@.len() ==> r@[k].0.id() == filled_indices(s0.take(i as int))[k] && s0[r@[k].0.id() as int]
                    == Some(*r@[k].1),
            after_borrow(*v)@ == refill(s0.take(i as int), Seq::new(r@.len(), |k: int| *final(r@[k].1)))
                + final(rest)@,
        decreases s0.len() - i,
    {
        let ghost fi = filled_indices(s0.take(i as int));
        let ghost r0 = r@;
        proof {
            assert(s0.take(i + 1).drop_last() =~= s0.take(i as int));
            assert(s0.take(i + 1).last() == s0[i as int]);
            assert(rest@[0] == s0[i as int]);
        }
        let (head, tail) = rest.split_at_mut(1);
        let id = EntryId(i);
        proof {
            id.lemma_id();
        }
        match &mut head[0] {
            Some(d) => {
                r.push((id, d));
                proof {
                    assert(filled_indices(s0.take(i + 1)) == fi.push(i));
                    let f0 = Seq::new(r0.len(), |k: int| *final(r0[k].1));
                    let f1 = Seq::new(r@.len(), |k: int| *final(r@[k].1));
                    assert(f1.drop_last() =~= f0);
                }
            },
            None => {
                proof {
                    assert(filled_indices(s0.take(i + 1)) == fi);
                }
            },
        }
        rest = tail;
        i = i + 1;
    }
    proof {
        assert(s0.take(i as int) =~= s0);
        assert(final(rest)@ =~= Seq::<Option<T>>::empty());
    }
    r
}

} // verus!
