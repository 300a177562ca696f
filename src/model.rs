use vstd::prelude::*;

use crate::deque::Deque;

verus! {

/// Round trip at the back, on any deque: `add_last` of each item on an
/// empty deque, then as many `remove_first`, hands the items out in the order
/// they went in.
pub fn fifo_round_trip<D: Deque>(items: Vec<D::Item>) -> (r: Vec<D::Item>)
    requires
        items@.len() < usize::MAX / 2,
    ensures
        r@ == items@,
{
    let ghost all = items@;
    let mut src = items;
    let mut d = D::new();
    let mut n: usize = 0;
    while src.len() > 0
        invariant
            d.inv(),
            all.len() < usize::MAX / 2,
            n == d.items().len(),
            d.items() + src@ == all,
        decreases src@.len(),
    {
        let x = src.remove(0);
        proof {
            assert(d.items().len() + src@.len() + 1 == all.len()) by {
                assert((d.items() + seq![x] + src@).len() == all.len());
            }
        }
        let ghost before = d.items();
        d.add_last(x);
        n = n + 1;
        assert(d.items() + src@ =~= before + (seq![x] + src@));
    }
    assert(d.items() =~= all);
    let mut out: Vec<D::Item> = Vec::new();
    while n > 0
        invariant
            d.inv(),
            n == d.items().len(),
            out@ + d.items() == all,
        decreases n,
    {
        let ghost before = d.items();
        let x = d.remove_first();
        out.push(x.unwrap());
        n = n - 1;
        assert(out@ + d.items() =~= all) by {
            assert(before =~= seq![before[0]] + before.drop_first());
        }
    }
    assert(out@ =~= all);
    out
}

/// Round trip at the front, on any deque: `add_first` of each item on an
/// empty deque, then as many `remove_first`, hands the items out in reverse
/// order.
pub fn lifo_round_trip<D: Deque>(items: Vec<D::Item>) -> (r: Vec<D::Item>)
    requires
        items@.len() < usize::MAX / 2,
    ensures
        r@ == items@.reverse(),
{
    let ghost all = items@;
    let mut src = items;
    let mut d = D::new();
    let mut n: usize = 0;
    while src.len() > 0
        invariant
            d.inv(),
            all.len() < usize::MAX / 2,
            n == d.items().len(),
            d.items().len() + src@.len() == all.len(),
            d.items() == all.take(n as int).reverse(),
            src@ == all.skip(n as int),
        decreases src@.len(),
    {
        let x = src.remove(0);
        let ghost before = d.items();
        d.add_first(x);
        n = n + 1;
        assert(d.items() =~= all.take(n as int).reverse()) by {
            assert(x == all[n - 1]);
        }
        assert(src@ =~= all.skip(n as int));
    }
    assert(all.take(n as int) =~= all);
    let mut out: Vec<D::Item> = Vec::new();
    let ghost rev = d.items();
    while n > 0
        invariant
            d.inv(),
            n == d.items().len(),
            out@ + d.items() == rev,
        decreases n,
    {
        let ghost before = d.items();
        let x = d.remove_first();
        out.push(x.unwrap());
        n = n - 1;
        assert(out@ + d.items() =~= rev) by {
            assert(before =~= seq![before[0]] + before.drop_first());
        }
    }
    assert(out@ =~= all.reverse());
    out
}

} // verus!
