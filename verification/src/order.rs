//! Stable sorting by a numeric key.
use vstd::prelude::*;

verus! {

/// `x` put behind every item of the list whose key is no larger.
pub open spec fn placed<T>(list: Seq<(u128, T)>, x: (u128, T)) -> Seq<(u128, T)>
    decreases list.len(),
{
    if list.len() == 0 || list.last().0 <= x.0 {
        list.push(x)
    } else {
        placed(list.drop_last(), x).push(list.last())
    }
}

/// The items by key; those with equal keys keep their order.
pub open spec fn sorted<T>(list: Seq<(u128, T)>) -> Seq<(u128, T)>
    decreases list.len(),
{
    if list.len() == 0 {
        list
    } else {
        placed(sorted(list.drop_last()), list.last())
    }
}

pub open spec fn keys_ascend<T>(list: Seq<(u128, T)>) -> bool {
    forall|i: int, j: int| 0 <= i <= j < list.len() ==> list[i].0 <= list[j].0
}

proof fn lemma_placed<T>(list: Seq<(u128, T)>, x: (u128, T))
    requires
        keys_ascend(list),
    ensures
        keys_ascend(placed(list, x)),
        placed(list, x).to_multiset() =~= list.to_multiset().insert(x),
        placed(list, x).len() == list.len() + 1,
        placed(list, x).last().0 == (if list.len() > 0 && list.last().0 > x.0 {
            list.last().0
        } else {
            x.0
        }),
    decreases list.len(),
{
    broadcast use vstd::seq_lib::group_to_multiset_ensures;

    if list.len() == 0 || list.last().0 <= x.0 {
    } else {
        let head = list.drop_last();
        lemma_placed(head, x);
        assert(list =~= head.push(list.last()));
        assert(list.to_multiset() =~= head.to_multiset().insert(list.last()));
        assert(placed(list, x).to_multiset() =~= placed(head, x).to_multiset().insert(list.last()));
    }
}

/// Sorting gives the same items with their keys in ascending order.
pub proof fn sorting_keeps_the_items<T>(list: Seq<(u128, T)>)
    ensures
        keys_ascend(sorted(list)),
        sorted(list).to_multiset() =~= list.to_multiset(),
        sorted(list).len() == list.len(),
    decreases list.len(),
{
    broadcast use vstd::seq_lib::group_to_multiset_ensures;

    if list.len() > 0 {
        sorting_keeps_the_items(list.drop_last());
        lemma_placed(sorted(list.drop_last()), list.last());
        assert(list =~= list.drop_last().push(list.last()));
    }
}

fn place<T>(list: &mut Vec<(u128, T)>, x: (u128, T))
    ensures
        final(list)@ == placed(old(list)@, x),
{
    let ghost start = list@;
    let mut i: usize = list.len();
    proof {
        assert(start.take(i as int) =~= start);
        assert(placed(start, x) =~= placed(start.take(i as int), x) + start.skip(i as int));
    }
    while i > 0 && list[i - 1].0 > x.0
        invariant
            i <= list.len(),
            start == list@,
            placed(start, x) == placed(start.take(i as int), x) + start.skip(i as int),
        decreases i,
    {
        proof {
            let head = start.take(i as int);
            assert(head.drop_last() =~= start.take(i - 1));
            assert(placed(start.take(i - 1), x).push(head.last()) + start.skip(i as int) =~= placed(
                start.take(i - 1),
                x,
            ) + start.skip(i - 1));
        }
        i -= 1;
    }
    proof {
        let head = start.take(i as int);
        assert(placed(head, x) == head.push(x));
        assert(start.insert(i as int, x) =~= head.push(x) + start.skip(i as int));
    }
    list.insert(i, x);
}

/// The items of a list from last to first.
pub fn reversed<T>(list: Vec<T>) -> (r: Vec<T>)
    ensures
        r@ == list@.reverse(),
{
    let ghost all = list@;
    let mut list = list;
    let mut out: Vec<T> = Vec::new();
    assert(all =~= all.take(all.len() as int));
    while list.len() > 0
        invariant
            list@.len() + out@.len() == all.len(),
            list@ == all.take(list@.len() as int),
            out@ == all.skip(list@.len() as int).reverse(),
        decreases list.len(),
    {
        let ghost n = list@.len() as int;
        let x = list.pop().unwrap();
        out.push(x);
        proof {
            assert(list@ =~= all.take(n - 1));
            assert(all.skip(n - 1) =~= seq![x] + all.skip(n));
            assert(out@ =~= all.skip(n - 1).reverse());
        }
    }
    assert(all.skip(0) =~= all);
    out
}

/// Keeping some items of a list, from the front: the first one stays if it is one
/// of those.
pub proof fn lemma_filter_front<T>(x: T, rest: Seq<T>, keep: spec_fn(T) -> bool)
    ensures
        (seq![x] + rest).filter(keep) == (if keep(x) {
            seq![x] + rest.filter(keep)
        } else {
            rest.filter(keep)
        }),
    decreases rest.len(),
{
    reveal(Seq::filter);
    if rest.len() == 0 {
        assert((seq![x] + rest).drop_last() =~= Seq::<T>::empty());
        assert((seq![x] + rest).last() == x);
        assert(Seq::<T>::empty().filter(keep) =~= Seq::<T>::empty());
        assert(rest =~= Seq::<T>::empty());
        if keep(x) {
            assert(seq![x] + rest.filter(keep) =~= Seq::<T>::empty().push(x));
        }
    } else {
        lemma_filter_front(x, rest.drop_last(), keep);
        assert((seq![x] + rest).drop_last() =~= seq![x] + rest.drop_last());
        assert((seq![x] + rest).last() == rest.last());
        let f = rest.drop_last().filter(keep);
        if keep(rest.last()) {
            assert((seq![x] + f).push(rest.last()) =~= seq![x] + f.push(rest.last()));
        }
    }
}

/// Reversing twice gives the list back.
pub proof fn lemma_reverse_twice<T>(s: Seq<T>)
    ensures
        s.reverse().reverse() == s,
{
    assert(s.reverse().reverse() =~= s);
}

/// Sorts items by key; those with equal keys keep their order.
pub fn sort<T>(list: Vec<(u128, T)>) -> (r: Vec<(u128, T)>)
    ensures
        r@ == sorted(list@),
{
    let ghost all = list@;
    let mut rest = reversed(list);
    let mut out: Vec<(u128, T)> = Vec::new();
    let ghost n = all.len();
    proof {
        assert(all.skip(0) =~= all);
        assert(all.take(0) =~= Seq::<(u128, T)>::empty());
        assert(out@ =~= sorted(all.take(0)));
    }
    while rest.len() > 0
        invariant
            rest@.len() <= n,
            all.len() == n,
            rest@ == all.skip(n - rest@.len()).reverse(),
            out@ == sorted(all.take(n - rest@.len())),
        decreases rest.len(),
    {
        let ghost done = n - rest@.len();
        let ghost r0 = rest@;
        let x = rest.pop().unwrap();
        proof {
            assert(r0[r0.len() - 1] == all[done]);
            let tail = all.skip(done + 1).reverse();
            assert forall|j: int| 0 <= j < tail.len() implies rest@[j] == tail[j] by {
                assert(r0[j] == all.skip(done).reverse()[j]);
            }
            assert(rest@ =~= tail);
            assert(all.take(done + 1).drop_last() =~= all.take(done));
        }
        place(&mut out, x);
    }
    assert(all.take(n as int) =~= all);
    out
}

} // verus!
