//! Order lists: sequences of orders with set-like insertion and removal.

use vstd::prelude::*;
use crate::types::Order;

verus! {

/// `s` with every occurrence of `x` removed, the rest kept in order.
pub open spec fn without(s: Seq<Order>, x: Order) -> Seq<Order>
    decreases s.len(),
{
    if s.len() == 0 {
        s
    } else {
        let rest = without(s.drop_last(), x);
        if s.last() == x {
            rest
        } else {
            rest.push(s.last())
        }
    }
}

/// `acc` with `o` appended unless it is already there.
pub open spec fn add_unique(acc: Seq<Order>, o: Order) -> Seq<Order> {
    if acc.contains(o) {
        acc
    } else {
        acc.push(o)
    }
}

/// `acc` with each order of `xs` appended in turn unless already there.
pub open spec fn add_all_unique(acc: Seq<Order>, xs: Seq<Order>) -> Seq<Order>
    decreases xs.len(),
{
    if xs.len() == 0 {
        acc
    } else {
        add_unique(add_all_unique(acc, xs.drop_last()), xs.last())
    }
}

/// What `without` keeps: exactly the other orders, none of them twice
/// more than before, in their old order.
pub proof fn lemma_without(s: Seq<Order>, x: Order)
    ensures
        forall|y: Order| #[trigger] without(s, x).contains(y) <==> (s.contains(y) && y != x),
        !without(s, x).contains(x),
        without(s, x).len() <= s.len(),
        s.no_duplicates() ==> without(s, x).no_duplicates(),
        !s.contains(x) ==> without(s, x) == s,
    decreases s.len(),
{
    if s.len() > 0 {
        let d = s.drop_last();
        lemma_without(d, x);
        let rest = without(d, x);
        let w = without(s, x);
        assert forall|y: Order| #[trigger] w.contains(y) <==> (s.contains(y) && y != x) by {
            if s.contains(y) && y != x {
                let i = choose|i: int| 0 <= i < s.len() && s[i] == y;
                if i < s.len() - 1 {
                    assert(d[i] == y);
                    assert(d.contains(y));
                    assert(rest.contains(y));
                    let k = choose|k: int| 0 <= k < rest.len() && rest[k] == y;
                    if s.last() != x {
                        assert(w[k] == y);
                    }
                } else {
                    assert(w[w.len() - 1] == y);
                }
            }
            if w.contains(y) {
                let k = choose|k: int| 0 <= k < w.len() && w[k] == y;
                if k < rest.len() {
                    assert(rest[k] == y);
                    assert(rest.contains(y));
                    let j = choose|j: int| 0 <= j < d.len() && d[j] == y;
                    assert(s[j] == y);
                } else {
                    assert(s[s.len() - 1] == y);
                }
            }
        }
        if s.no_duplicates() {
            assert(d.no_duplicates());
            if s.last() != x {
                assert(!d.contains(s.last())) by {
                    if d.contains(s.last()) {
                        let j = choose|j: int| 0 <= j < d.len() && d[j] == s.last();
                        assert(s[j] == s[s.len() - 1]);
                    }
                }
                assert(!rest.contains(s.last()));
                assert forall|i: int, j: int|
                    0 <= i < w.len() && 0 <= j < w.len() && i != j implies w[i] != w[j] by {
                    if i < rest.len() && j < rest.len() {
                        assert(rest[i] != rest[j]);
                    } else if i < rest.len() {
                        assert(rest.contains(rest[i]));
                    } else {
                        assert(rest.contains(rest[j]));
                    }
                }
            }
        }
        if !s.contains(x) {
            assert(!d.contains(x)) by {
                if d.contains(x) {
                    let j = choose|j: int| 0 <= j < d.len() && d[j] == x;
                    assert(s[j] == x);
                }
            }
            assert(s.last() != x) by {
                assert(s[s.len() - 1] == s.last());
            }
            assert(d.push(s.last()) =~= s);
        }
    } else {
        assert(without(s, x) =~= s);
    }
}

/// What `add_unique` keeps: the old orders, in place, and `o`.
pub proof fn lemma_add_unique(acc: Seq<Order>, o: Order)
    ensures
        forall|y: Order| #[trigger] add_unique(acc, o).contains(y) <==> (acc.contains(y) || y == o),
        acc.no_duplicates() ==> add_unique(acc, o).no_duplicates(),
        add_unique(acc, o).len() >= acc.len(),
        add_unique(acc, o).subrange(0, acc.len() as int) == acc,
{
    if !acc.contains(o) {
        assert forall|y: Order| #[trigger] add_unique(acc, o).contains(y) implies (acc.contains(y)
            || y == o) by {
            let j = choose|j: int| 0 <= j < acc.len() + 1 && add_unique(acc, o)[j] == y;
            if j < acc.len() {
                assert(acc[j] == y);
            }
        }
        assert forall|y: Order| acc.contains(y) implies #[trigger] add_unique(acc, o).contains(y) by {
            let j = choose|j: int| 0 <= j < acc.len() && acc[j] == y;
            assert(add_unique(acc, o)[j] == y);
        }
        assert(add_unique(acc, o)[acc.len() as int] == o);
    }
    assert(add_unique(acc, o).subrange(0, acc.len() as int) =~= acc);
}

/// What `add_all_unique` keeps: the old orders, in place, and every order of `xs`.
pub proof fn lemma_add_all_unique(acc: Seq<Order>, xs: Seq<Order>)
    ensures
        forall|y: Order| #[trigger] add_all_unique(acc, xs).contains(y) <==> (acc.contains(y)
            || xs.contains(y)),
        acc.no_duplicates() ==> add_all_unique(acc, xs).no_duplicates(),
        add_all_unique(acc, xs).len() >= acc.len(),
        add_all_unique(acc, xs).subrange(0, acc.len() as int) == acc,
    decreases xs.len(),
{
    if xs.len() == 0 {
        assert(acc.subrange(0, acc.len() as int) =~= acc);
    } else {
        let mid = add_all_unique(acc, xs.drop_last());
        lemma_add_all_unique(acc, xs.drop_last());
        lemma_add_unique(mid, xs.last());
        assert forall|y: Order| #[trigger] add_all_unique(acc, xs).contains(y) <==> (acc.contains(
            y) || xs.contains(y)) by {
            if xs.contains(y) && y != xs.last() {
                let i = choose|i: int| 0 <= i < xs.len() && xs[i] == y;
                assert(xs.drop_last()[i] == y);
            }
            if xs.drop_last().contains(y) {
                let i = choose|i: int| 0 <= i < xs.drop_last().len() && xs.drop_last()[i] == y;
                assert(xs[i] == y);
            }
            assert(xs[xs.len() - 1] == xs.last());
        }
        assert(add_all_unique(acc, xs).subrange(0, acc.len() as int) =~= mid.subrange(
            0,
            acc.len() as int,
        ));
    }
}

/// Adding `xs` and then `ys` is adding `xs + ys`.
pub proof fn lemma_add_all_unique_append(acc: Seq<Order>, xs: Seq<Order>, ys: Seq<Order>)
    ensures
        add_all_unique(acc, xs + ys) == add_all_unique(add_all_unique(acc, xs), ys),
    decreases ys.len(),
{
    if ys.len() == 0 {
        assert(xs + ys =~= xs);
    } else {
        lemma_add_all_unique_append(acc, xs, ys.drop_last());
        assert((xs + ys).drop_last() =~= xs + ys.drop_last());
        assert((xs + ys).last() == ys.last());
    }
}

/// Adding more orders never shortens the result.
pub proof fn lemma_add_all_unique_mono(acc: Seq<Order>, xs: Seq<Order>, ys: Seq<Order>)
    ensures
        add_all_unique(acc, xs).len() <= add_all_unique(acc, xs + ys).len(),
{
    lemma_add_all_unique_append(acc, xs, ys);
    lemma_add_all_unique(add_all_unique(acc, xs), ys);
}

/// Whether `v` holds `o`.
pub fn contains_order(v: &[Order], o: &Order) -> (r: bool)
    ensures
        r == v@.contains(*o),
{
    let mut i: usize = 0;
    while i < v.len()
        invariant
            i <= v.len(),
            forall|j: int| 0 <= j < i ==> v@[j] != *o,
        decreases v.len() - i,
    {
        if v[i] == *o {
            assert(v@[i as int] == *o);
            return true;
        }
        i = i + 1;
    }
    false
}

/// Removes every occurrence of `o` from `v`, keeping the rest in order.
pub fn remove_order(v: &mut Vec<Order>, o: &Order)
    ensures
        final(v)@ == without(old(v)@, *o),
{
    let mut kept: Vec<Order> = Vec::new();
    let mut i: usize = 0;
    while i < v.len()
        invariant
            i <= v.len(),
            kept@ == without(v@.take(i as int), *o),
        decreases v.len() - i,
    {
        assert(v@.take(i as int + 1).drop_last() =~= v@.take(i as int));
        if v[i] != *o {
            kept.push(v[i]);
        }
        i = i + 1;
    }
    assert(v@.take(v.len() as int) =~= v@);
    *v = kept;
}

/// Appends `o` to `v` unless it is already there; says whether it was added.
pub fn push_unique(v: &mut Vec<Order>, o: Order) -> (added: bool)
    ensures
        final(v)@ == add_unique(old(v)@, o),
        added == !old(v)@.contains(o),
{
    if contains_order(v, &o) {
        false
    } else {
        v.push(o);
        true
    }
}

/// Appends each order of `xs` to `v` in turn unless already there.
pub fn extend_unique(v: &mut Vec<Order>, xs: &Vec<Order>)
    ensures
        final(v)@ == add_all_unique(old(v)@, xs@),
{
    let mut i: usize = 0;
    while i < xs.len()
        invariant
            i <= xs.len(),
            v@ == add_all_unique(old(v)@, xs@.take(i as int)),
        decreases xs.len() - i,
    {
        assert(xs@.take(i as int + 1).drop_last() =~= xs@.take(i as int));
        push_unique(v, xs[i]);
        i = i + 1;
    }
    assert(xs@.take(xs.len() as int) =~= xs@);
}

/// A copy of `v`.
pub fn copy_orders(v: &Vec<Order>) -> (r: Vec<Order>)
    ensures
        r@ == v@,
{
    let mut r: Vec<Order> = Vec::new();
    let mut i: usize = 0;
    while i < v.len()
        invariant
            i <= v.len(),
            r@ == v@.take(i as int),
        decreases v.len() - i,
    {
        r.push(v[i]);
        i = i + 1;
        assert(r@ =~= v@.take(i as int));
    }
    assert(v@.take(v.len() as int) =~= v@);
    r
}

} // verus!
