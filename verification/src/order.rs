//! A stable sort.

use vstd::prelude::*;

verus! {

/// Something that has a place in an order, which others may share.
pub trait Placed: Copy {
    spec fn place_of(self) -> int;

    /// Whether this one's place is the other's or one before it.
    fn not_after(self, other: Self) -> (r: bool)
        ensures
            r == (self.place_of() <= other.place_of()),
    ;
}

/// Nothing stands before something with an earlier place.
pub open spec fn sorted<T: Placed>(s: Seq<T>) -> bool {
    forall|i: int, j: int| 0 <= i <= j < s.len() ==> s[i].place_of() <= s[j].place_of()
}

/// The items with the place `k`, in the order they stand in.
pub open spec fn at_place<T: Placed>(s: Seq<T>, k: int) -> Seq<T> {
    s.filter(|x: T| x.place_of() == k)
}

/// `t` holds the items of `s`, those that share a place in the order of `s`.
pub open spec fn rearranged<T: Placed>(s: Seq<T>, t: Seq<T>) -> bool {
    &&& t.to_multiset() == s.to_multiset()
    &&& forall|k: int| #[trigger] at_place(t, k) == at_place(s, k)
}

proof fn lemma_none_at_place<T: Placed>(s: Seq<T>, k: int)
    requires
        forall|i: int| 0 <= i < s.len() ==> s[i].place_of() != k,
    ensures
        at_place(s, k) == Seq::<T>::empty(),
    decreases s.len(),
{
    reveal(Seq::filter);
    if s.len() > 0 {
        lemma_none_at_place(s.drop_last(), k);
    }
}

proof fn lemma_insert_is_push<T: Placed>(s: Seq<T>, p: int, x: T)
    requires
        0 <= p <= s.len(),
        forall|i: int| p <= i < s.len() ==> s[i].place_of() > x.place_of(),
    ensures
        rearranged(s.push(x), s.insert(p, x)),
{
    let head = s.take(p);
    let tail = s.skip(p);
    assert(s =~= head + tail);
    assert(s.insert(p, x) =~= head + seq![x] + tail);
    assert(s.push(x) =~= head + tail + seq![x]);
    assert forall|k: int| #[trigger] at_place(s.insert(p, x), k) == at_place(s.push(x), k) by {
        let pred = |y: T| y.place_of() == k;
        Seq::filter_distributes_over_add(head + seq![x], tail, pred);
        Seq::filter_distributes_over_add(head, seq![x], pred);
        Seq::filter_distributes_over_add(head + tail, seq![x], pred);
        Seq::filter_distributes_over_add(head, tail, pred);
        if k == x.place_of() {
            lemma_none_at_place(tail, k);
            assert(at_place(s.insert(p, x), k) =~= at_place(s.push(x), k));
        } else {
            lemma_none_at_place(seq![x], k);
            assert(at_place(s.insert(p, x), k) =~= at_place(s.push(x), k));
        }
    }
    s.insert_ensures(p, x);
    s.to_multiset_ensures();
    vstd::seq_lib::to_multiset_insert(s, p, x);
    assert(s.push(x).to_multiset() =~= s.to_multiset().insert(x));
}

/// Sorts by place; items that share a place keep their order.
pub fn sort<T: Placed>(v: &mut Vec<T>)
    ensures
        sorted(final(v)@),
        rearranged(old(v)@, final(v)@),
{
    let mut out: Vec<T> = Vec::new();
    let mut i: usize = 0;
    proof {
        assert(v@.take(0) =~= out@);
    }
    while i < v.len()
        invariant
            i <= v@.len(),
            v@ == old(v)@,
            sorted(out@),
            rearranged(v@.take(i as int), out@),
        decreases v.len() - i,
    {
        let x = v[i];
        let mut p: usize = out.len();
        while p > 0 && !out[p - 1].not_after(x)
            invariant
                p <= out@.len(),
                forall|j: int| p <= j < out@.len() ==> out@[j].place_of() > x.place_of(),
            decreases p,
        {
            p -= 1;
        }
        let ghost before = out@;
        out.insert(p, x);
        proof {
            let seen = v@.take(i as int);
            lemma_insert_is_push(before, p as int, x);
            lemma_push_keeps_rearranged(seen, before, x);
            assert(v@.take(i + 1) =~= seen.push(x));
            assert forall|k: int| #[trigger] at_place(out@, k) == at_place(v@.take(i + 1), k) by {
                assert(at_place(before.push(x), k) == at_place(seen.push(x), k));
                assert(at_place(before.insert(p as int, x), k) == at_place(before.push(x), k));
            }
        }
        i += 1;
    }
    proof {
        assert(v@.take(i as int) =~= v@);
    }
    *v = out;
}

proof fn lemma_push_keeps_rearranged<T: Placed>(s: Seq<T>, t: Seq<T>, x: T)
    requires
        rearranged(s, t),
    ensures
        rearranged(s.push(x), t.push(x)),
{
    s.to_multiset_ensures();
    t.to_multiset_ensures();
    assert forall|k: int| #[trigger] at_place(t.push(x), k) == at_place(s.push(x), k) by {
        let pred = |y: T| y.place_of() == k;
        s.lemma_filter_push(x, pred);
        t.lemma_filter_push(x, pred);
        assert(at_place(t, k) == at_place(s, k));
    }
}

proof fn lemma_last_at_its_place<T: Placed>(s: Seq<T>)
    requires
        s.len() > 0,
    ensures
        at_place(s, s.last().place_of()).len() > 0,
        at_place(s, s.last().place_of()).last() == s.last(),
        forall|k: int|
            k != s.last().place_of() ==> #[trigger] at_place(s, k) == at_place(s.drop_last(), k),
        at_place(s, s.last().place_of()).drop_last() == at_place(
            s.drop_last(),
            s.last().place_of(),
        ),
{
    reveal(Seq::filter);
    let k = s.last().place_of();
    assert(at_place(s, k).drop_last() =~= at_place(s.drop_last(), k));
}

proof fn lemma_member_at_place<T: Placed>(s: Seq<T>, k: int)
    requires
        at_place(s, k).len() > 0,
    ensures
        exists|i: int| 0 <= i < s.len() && s[i].place_of() == k,
{
    if forall|i: int| 0 <= i < s.len() ==> s[i].place_of() != k {
        lemma_none_at_place(s, k);
    }
}

/// There is only one way to sort a list and keep the order of those that share a
/// place.
pub proof fn sorting_has_one_result<T: Placed>(t: Seq<T>, u: Seq<T>)
    requires
        sorted(t),
        sorted(u),
        forall|k: int| #[trigger] at_place(t, k) == at_place(u, k),
    ensures
        t == u,
    decreases t.len(),
{
    if t.len() == 0 {
        if u.len() > 0 {
            lemma_last_at_its_place(u);
            let k = u.last().place_of();
            assert(at_place(t, k) == at_place(u, k));
            lemma_member_at_place(t, k);
        }
        assert(t =~= u);
    } else {
        lemma_last_at_its_place(t);
        let kt = t.last().place_of();
        assert(at_place(t, kt) == at_place(u, kt));
        lemma_member_at_place(u, kt);
        lemma_last_at_its_place(u);
        let ku = u.last().place_of();
        assert(at_place(t, ku) == at_place(u, ku));
        lemma_member_at_place(t, ku);
        assert(kt == ku);
        assert(t.last() == u.last());
        assert forall|k: int| #[trigger]
            at_place(t.drop_last(), k) == at_place(u.drop_last(), k) by {
            assert(at_place(t, k) == at_place(u, k));
            if k != kt {
                assert(at_place(t, k) == at_place(t.drop_last(), k));
                assert(at_place(u, k) == at_place(u.drop_last(), k));
            }
        }
        sorting_has_one_result(t.drop_last(), u.drop_last());
        assert(t =~= t.drop_last().push(t.last()));
        assert(u =~= u.drop_last().push(u.last()));
    }
}

} // verus!
