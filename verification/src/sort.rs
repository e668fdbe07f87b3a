//! Sequences put in order, and why the order they are put in does not depend
//! on the order they came in.

use vstd::prelude::*;

verus! {

/// No element is less than one before it.
pub open spec fn in_order<A>(s: Seq<A>, less: spec_fn(A, A) -> bool) -> bool {
    forall|i: int, j: int| 0 <= i < j < s.len() ==> !less(#[trigger] s[j], #[trigger] s[i])
}

/// On the elements of `s`, `less` is a strict order under which only equal
/// elements are neither less nor greater.
pub open spec fn orders<A>(s: Seq<A>, less: spec_fn(A, A) -> bool) -> bool {
    &&& forall|a: A, b: A| #[trigger]
        s.contains(a) && #[trigger] s.contains(b) ==> !(less(a, b) && less(b, a)) && (less(a, b)
            || less(b, a) || a == b)
    &&& forall|a: A, b: A, c: A|
        #![trigger s.contains(a), s.contains(b), s.contains(c)]
        s.contains(a) && s.contains(b) && s.contains(c) && less(a, b) && less(b, c) ==> less(a, c)
}

/// `x` put into `t` in front of the elements at its end that are not less.
pub open spec fn inserted<A>(t: Seq<A>, x: A, less: spec_fn(A, A) -> bool) -> Seq<A>
    decreases t.len(),
{
    if t.len() == 0 || !less(x, t.last()) {
        t.push(x)
    } else {
        inserted(t.drop_last(), x, less).push(t.last())
    }
}

/// The elements of `s` in order.
pub open spec fn arranged<A>(s: Seq<A>, less: spec_fn(A, A) -> bool) -> Seq<A>
    decreases s.len(),
{
    if s.len() == 0 {
        s
    } else {
        inserted(arranged(s.drop_last(), less), s.last(), less)
    }
}

proof fn lemma_inserted_multiset<A>(t: Seq<A>, x: A, less: spec_fn(A, A) -> bool)
    ensures
        inserted(t, x, less).to_multiset() == t.to_multiset().insert(x),
    decreases t.len(),
{
    broadcast use vstd::seq_lib::group_to_multiset_ensures;

    if t.len() == 0 || !less(x, t.last()) {
    } else {
        lemma_inserted_multiset(t.drop_last(), x, less);
        assert(t == t.drop_last().push(t.last()));
        assert(inserted(t, x, less).to_multiset() == t.to_multiset().insert(x));
    }
}

/// Putting a sequence in order keeps every element as often as it was there.
pub proof fn arranging_keeps_the_elements<A>(s: Seq<A>, less: spec_fn(A, A) -> bool)
    ensures
        arranged(s, less).to_multiset() == s.to_multiset(),
        arranged(s, less).len() == s.len(),
    decreases s.len(),
{
    broadcast use vstd::seq_lib::group_to_multiset_ensures;

    if s.len() > 0 {
        arranging_keeps_the_elements(s.drop_last(), less);
        lemma_inserted_multiset(arranged(s.drop_last(), less), s.last(), less);
        assert(s == s.drop_last().push(s.last()));
    }
    assert(arranged(s, less).len() == arranged(s, less).to_multiset().len());
    assert(s.len() == s.to_multiset().len());
}

proof fn lemma_same_elements<A>(s: Seq<A>, t: Seq<A>, a: A)
    requires
        s.to_multiset() == t.to_multiset(),
    ensures
        s.contains(a) == t.contains(a),
{
    broadcast use vstd::seq_lib::group_to_multiset_ensures;

    assert(s.contains(a) <==> s.to_multiset().count(a) > 0);
    assert(t.contains(a) <==> t.to_multiset().count(a) > 0);
}

proof fn lemma_orders_transfer<A>(s: Seq<A>, t: Seq<A>, less: spec_fn(A, A) -> bool)
    requires
        orders(s, less),
        forall|a: A| t.contains(a) ==> s.contains(a),
    ensures
        orders(t, less),
{
}

proof fn lemma_inserted_in_order<A>(t: Seq<A>, x: A, less: spec_fn(A, A) -> bool)
    requires
        in_order(t, less),
        orders(t.push(x), less),
    ensures
        in_order(inserted(t, x, less), less),
    decreases t.len(),
{
    let all = t.push(x);
    assert(all[t.len() as int] == x);
    assert forall|i: int| 0 <= i < t.len() implies all.contains(#[trigger] t[i]) by {
        assert(all[i] == t[i]);
    }
    if t.len() == 0 || !less(x, t.last()) {
        let r = t.push(x);
        assert forall|i: int, j: int| 0 <= i < j < r.len() implies !less(
            #[trigger] r[j],
            #[trigger] r[i],
        ) by {
            if j == t.len() {
                assert(all.contains(t[i]) && all.contains(x) && all.contains(t.last()));
                if i < t.len() - 1 {
                    assert(!less(t[t.len() - 1], t[i]));
                    if less(x, t[i]) {
                        assert(less(t.last(), x) || t.last() == x);
                        assert(less(t.last(), t[i]));
                    }
                }
            }
        }
    } else {
        let front = t.drop_last();
        assert forall|a: A| front.push(x).contains(a) implies all.contains(a) by {
            let k = choose|k: int| 0 <= k < front.push(x).len() && front.push(x)[k] == a;
            if k < front.len() {
                assert(all[k] == a);
            } else {
                assert(all[t.len() as int] == a);
            }
        }
        lemma_orders_transfer(all, front.push(x), less);
        lemma_inserted_in_order(front, x, less);
        lemma_inserted_multiset(front, x, less);
        let inner = inserted(front, x, less);
        let r = inner.push(t.last());
        assert(inserted(t, x, less) == r);
        assert forall|i: int, j: int| 0 <= i < j < r.len() implies !less(
            #[trigger] r[j],
            #[trigger] r[i],
        ) by {
            if j == inner.len() {
                let a = inner[i];
                assert(inner.contains(a));
                broadcast use vstd::seq_lib::group_to_multiset_ensures;

                assert(inner.to_multiset().count(a) > 0);
                assert(front.push(x).to_multiset() == front.to_multiset().insert(x));
                lemma_same_elements(inner, front.push(x), a);
                let k = choose|k: int| 0 <= k < front.push(x).len() && front.push(x)[k] == a;
                assert(all.contains(t.last()));
                assert(all.contains(x));
                if k < front.len() {
                    assert(t[k] == a);
                    assert(!less(t[t.len() - 1], t[k]));
                } else {
                    assert(a == x);
                }
            } else {
                assert(r[j] == inner[j]);
                assert(r[i] == inner[i]);
            }
        }
    }
}

/// An arranged sequence is in order.
pub proof fn arranging_puts_in_order<A>(s: Seq<A>, less: spec_fn(A, A) -> bool)
    requires
        orders(s, less),
    ensures
        in_order(arranged(s, less), less),
    decreases s.len(),
{
    if s.len() > 0 {
        let front = s.drop_last();
        assert forall|a: A| front.contains(a) implies s.contains(a) by {
            let k = choose|k: int| 0 <= k < front.len() && front[k] == a;
            assert(s[k] == a);
        }
        lemma_orders_transfer(s, front, less);
        arranging_puts_in_order(front, less);
        arranging_keeps_the_elements(front, less);
        let t = arranged(front, less);
        let x = s.last();
        assert forall|a: A| t.push(x).contains(a) implies s.contains(a) by {
            let k = choose|k: int| 0 <= k < t.push(x).len() && t.push(x)[k] == a;
            if k < t.len() {
                assert(t[k] == a);
                assert(t.contains(a));
                lemma_same_elements(t, front, a);
            } else {
                assert(s[s.len() - 1] == a);
            }
        }
        lemma_orders_transfer(s, t.push(x), less);
        lemma_inserted_in_order(t, x, less);
    }
}

proof fn lemma_in_order_unique<A>(s: Seq<A>, t: Seq<A>, less: spec_fn(A, A) -> bool)
    requires
        in_order(s, less),
        in_order(t, less),
        s.to_multiset() == t.to_multiset(),
        orders(s, less),
    ensures
        s == t,
    decreases s.len(),
{
    broadcast use vstd::seq_lib::group_to_multiset_ensures;

    assert(s.len() == s.to_multiset().len());
    assert(t.len() == t.to_multiset().len());
    if s.len() > 0 {
        let a = s.last();
        let b = t.last();
        assert(s[s.len() - 1] == a);
        assert(t[t.len() - 1] == b);
        assert(s.contains(a));
        assert(t.contains(b));
        lemma_same_elements(s, t, a);
        lemma_same_elements(s, t, b);
        let i = choose|i: int| 0 <= i < s.len() && s[i] == b;
        let j = choose|j: int| 0 <= j < t.len() && t[j] == a;
        if i < s.len() - 1 {
            assert(!less(s[s.len() - 1], s[i]));
        }
        if j < t.len() - 1 {
            assert(!less(t[t.len() - 1], t[j]));
        }
        assert(a == b);
        let sf = s.drop_last();
        let tf = t.drop_last();
        assert(s == sf.push(a));
        assert(t == tf.push(b));
        assert(sf.to_multiset() == s.to_multiset().remove(a)) by {
            assert(s.to_multiset() == sf.to_multiset().insert(a));
            assert(sf.to_multiset().insert(a).remove(a) == sf.to_multiset());
        }
        assert(tf.to_multiset() == t.to_multiset().remove(b)) by {
            assert(t.to_multiset() == tf.to_multiset().insert(b));
            assert(tf.to_multiset().insert(b).remove(b) == tf.to_multiset());
        }
        assert forall|c: A| sf.contains(c) implies s.contains(c) by {
            let k = choose|k: int| 0 <= k < sf.len() && sf[k] == c;
            assert(s[k] == c);
        }
        lemma_orders_transfer(s, sf, less);
        assert forall|x: int, y: int| 0 <= x < y < sf.len() implies !less(
            #[trigger] sf[y],
            #[trigger] sf[x],
        ) by {
            assert(!less(s[y], s[x]));
        }
        assert forall|x: int, y: int| 0 <= x < y < tf.len() implies !less(
            #[trigger] tf[y],
            #[trigger] tf[x],
        ) by {
            assert(!less(t[y], t[x]));
        }
        lemma_in_order_unique(sf, tf, less);
    } else {
        assert(s == t);
    }
}

/// Two sequences of the same elements are put in the same order, however they
/// came.
pub proof fn arranging_forgets_the_order<A>(s: Seq<A>, t: Seq<A>, less: spec_fn(A, A) -> bool)
    requires
        s.to_multiset() == t.to_multiset(),
        orders(s, less),
    ensures
        arranged(s, less) == arranged(t, less),
{
    assert forall|a: A| t.contains(a) implies s.contains(a) by {
        lemma_same_elements(s, t, a);
    }
    lemma_orders_transfer(s, t, less);
    arranging_keeps_the_elements(s, less);
    arranging_keeps_the_elements(t, less);
    arranging_puts_in_order(s, less);
    arranging_puts_in_order(t, less);
    assert forall|a: A| arranged(s, less).contains(a) implies s.contains(a) by {
        lemma_same_elements(arranged(s, less), s, a);
    }
    lemma_orders_transfer(s, arranged(s, less), less);
    lemma_in_order_unique(arranged(s, less), arranged(t, less), less);
}

} // verus!
