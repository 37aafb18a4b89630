//! A stable merge sort by key.

use vstd::prelude::*;
use crate::text;
use crate::text::text_before;

verus! {

/// Values that are ordered by a text.
pub trait Keyed: View + Sized {
    /// The text a value is ordered by.
    spec fn key_of(v: Self::V) -> Seq<char>;

    /// The text this value is ordered by.
    fn key_text(&self) -> (r: &str)
        ensures
            r@ == Self::key_of(self@),
    ;
}

/// The views of a sequence of values.
pub open spec fn views<T: Keyed>(s: Seq<T>) -> Seq<T::V> {
    Seq::new(s.len(), |i: int| s[i]@)
}

/// Puts `e` behind the last element that does not come after it.
pub open spec fn insert_in_order<T: Keyed>(s: Seq<T::V>, e: T::V) -> Seq<T::V>
    decreases s.len(),
{
    if s.len() > 0 && text::before(T::key_of(e), T::key_of(s.last())) {
        insert_in_order::<T>(s.drop_last(), e).push(s.last())
    } else {
        s.push(e)
    }
}

/// The sequence sorted by key; values with equal keys keep their order.
pub open spec fn sorted<T: Keyed>(s: Seq<T::V>) -> Seq<T::V>
    decreases s.len(),
{
    if s.len() == 0 {
        s
    } else {
        insert_in_order::<T>(sorted::<T>(s.drop_last()), s.last())
    }
}

/// Merges two sequences from their ends; on equal keys those of `x` come first.
spec fn merged<T: Keyed>(x: Seq<T::V>, y: Seq<T::V>) -> Seq<T::V>
    decreases x.len() + y.len(),
{
    if y.len() == 0 {
        x
    } else if x.len() == 0 || !text::before(T::key_of(y.last()), T::key_of(x.last())) {
        merged::<T>(x, y.drop_last()).push(y.last())
    } else {
        merged::<T>(x.drop_last(), y).push(x.last())
    }
}

proof fn lemma_merge_insert<T: Keyed>(x: Seq<T::V>, y: Seq<T::V>, e: T::V)
    ensures
        merged::<T>(x, insert_in_order::<T>(y, e)) == insert_in_order::<T>(merged::<T>(x, y), e),
    decreases x.len() + y.len(),
{
    let y2 = insert_in_order::<T>(y, e);
    let ke = T::key_of(e);
    if y.len() == 0 {
        assert(y2 =~= y.push(e));
        assert(y2.drop_last() =~= y);
        if x.len() > 0 && text::before(ke, T::key_of(x.last())) {
            lemma_merge_insert::<T>(x.drop_last(), y, e);
        }
    } else {
        let ky = T::key_of(y.last());
        let m = merged::<T>(x, y);
        if text::before(ke, ky) {
            assert(y2.drop_last() =~= insert_in_order::<T>(y.drop_last(), e));
            if x.len() == 0 || !text::before(ky, T::key_of(x.last())) {
                lemma_merge_insert::<T>(x, y.drop_last(), e);
                assert(m.drop_last() =~= merged::<T>(x, y.drop_last()));
            } else {
                lemma_merge_insert::<T>(x.drop_last(), y, e);
                text::lemma_before_transitive(ke, ky, T::key_of(x.last()));
                assert(m.drop_last() =~= merged::<T>(x.drop_last(), y));
            }
        } else {
            assert(y2.drop_last() =~= y);
            if x.len() > 0 && text::before(ke, T::key_of(x.last())) {
                let kx = T::key_of(x.last());
                text::lemma_before_total(ky, ke);
                if ky != ke {
                    text::lemma_before_transitive(ky, ke, kx);
                }
                lemma_merge_insert::<T>(x.drop_last(), y, e);
                assert(m.drop_last() =~= merged::<T>(x.drop_last(), y));
            }
        }
    }
}

proof fn lemma_sorted_concat<T: Keyed>(a: Seq<T::V>, b: Seq<T::V>)
    ensures
        sorted::<T>(a + b) == merged::<T>(sorted::<T>(a), sorted::<T>(b)),
    decreases b.len(),
{
    if b.len() == 0 {
        assert(a + b =~= a);
    } else {
        assert((a + b).drop_last() =~= a + b.drop_last());
        lemma_sorted_concat::<T>(a, b.drop_last());
        lemma_merge_insert::<T>(sorted::<T>(a), sorted::<T>(b.drop_last()), b.last());
    }
}

proof fn lemma_insert_len<T: Keyed>(s: Seq<T::V>, e: T::V)
    ensures
        insert_in_order::<T>(s, e).len() == s.len() + 1,
        insert_in_order::<T>(s, e).to_multiset() == s.to_multiset().insert(e),
    decreases s.len(),
{
    broadcast use vstd::seq_lib::group_to_multiset_ensures;

    if s.len() > 0 && text::before(T::key_of(e), T::key_of(s.last())) {
        lemma_insert_len::<T>(s.drop_last(), e);
        assert(s =~= s.drop_last().push(s.last()));
        assert(s.to_multiset() =~= s.drop_last().to_multiset().insert(s.last()));
        assert(s.drop_last().to_multiset().insert(e).insert(s.last())
            =~= s.drop_last().to_multiset().insert(s.last()).insert(e));
    }
}

/// Sorting keeps the elements.
pub proof fn lemma_sorted_permutes<T: Keyed>(s: Seq<T::V>)
    ensures
        sorted::<T>(s).len() == s.len(),
        sorted::<T>(s).to_multiset() == s.to_multiset(),
    decreases s.len(),
{
    broadcast use vstd::seq_lib::group_to_multiset_ensures;

    if s.len() > 0 {
        lemma_sorted_permutes::<T>(s.drop_last());
        lemma_insert_len::<T>(sorted::<T>(s.drop_last()), s.last());
        assert(s =~= s.drop_last().push(s.last()));
    }
}

/// Sorting keeps which elements occur.
pub proof fn lemma_sorted_contains<T: Keyed>(s: Seq<T::V>, e: T::V)
    ensures
        sorted::<T>(s).contains(e) == s.contains(e),
{
    broadcast use vstd::seq_lib::group_to_multiset_ensures;

    lemma_sorted_permutes::<T>(s);
    assert(s.contains(e) == (s.to_multiset().count(e) > 0));
    assert(sorted::<T>(s).contains(e) == (sorted::<T>(s).to_multiset().count(e) > 0));
}

/// Whether no element comes after a later one.
pub open spec fn in_order<T: Keyed>(s: Seq<T::V>) -> bool {
    forall|i: int, j: int|
        0 <= i < j < s.len() ==> !text::before(
            T::key_of(#[trigger] s[j]),
            T::key_of(#[trigger] s[i]),
        )
}

proof fn lemma_insert_in_order<T: Keyed>(s: Seq<T::V>, e: T::V)
    requires
        in_order::<T>(s),
    ensures
        in_order::<T>(insert_in_order::<T>(s, e)),
        forall|k: Seq<char>|
            (forall|i: int| 0 <= i < s.len() ==> !text::before(k, T::key_of(#[trigger] s[i])))
                && !text::before(k, T::key_of(e)) ==> forall|i: int|
                0 <= i < insert_in_order::<T>(s, e).len() ==> !#[trigger] text::before(
                    k,
                    T::key_of(insert_in_order::<T>(s, e)[i]),
                ),
    decreases s.len(),
{
    let r = insert_in_order::<T>(s, e);
    let ke = T::key_of(e);
    if s.len() > 0 && text::before(ke, T::key_of(s.last())) {
        let d = s.drop_last();
        let kl = T::key_of(s.last());
        lemma_insert_in_order::<T>(d, e);
        text::lemma_before_total(ke, kl);
        if text::before(kl, ke) {
            text::lemma_before_transitive(ke, kl, ke);
            text::lemma_before_irreflexive(ke);
        }
        assert forall|i: int| 0 <= i < d.len() implies !text::before(kl, T::key_of(#[trigger] d[i])) by {
            assert(d[i] == s[i]);
        }
        let q = insert_in_order::<T>(d, e);
        assert(forall|i: int| 0 <= i < q.len() ==> !#[trigger] text::before(kl, T::key_of(q[i])));
        assert forall|i: int, j: int| 0 <= i < j < r.len() implies !text::before(
            T::key_of(#[trigger] r[j]),
            T::key_of(#[trigger] r[i]),
        ) by {
            assert(r[i] == q[i]);
            if j < q.len() {
                assert(r[j] == q[j]);
            } else {
                assert(r[j] == s.last());
                assert(!text::before(kl, T::key_of(q[i])));
            }
        }
        assert forall|k: Seq<char>|
            (forall|i: int| 0 <= i < s.len() ==> !text::before(k, T::key_of(#[trigger] s[i])))
                && !text::before(k, ke) implies forall|i: int|
            0 <= i < r.len() ==> !#[trigger] text::before(k, T::key_of(r[i])) by {
            assert forall|i: int| 0 <= i < d.len() implies !text::before(
                k,
                T::key_of(#[trigger] d[i]),
            ) by {
                assert(d[i] == s[i]);
            }
            assert forall|i: int| 0 <= i < r.len() implies !#[trigger] text::before(
                k,
                T::key_of(r[i]),
            ) by {
                if i < q.len() {
                    assert(r[i] == q[i]);
                    assert(!text::before(k, T::key_of(q[i])));
                } else {
                    assert(s[s.len() - 1] == r[i]);
                }
            }
        }
    } else {
        assert forall|i: int, j: int| 0 <= i < j < r.len() implies !text::before(
            T::key_of(#[trigger] r[j]),
            T::key_of(#[trigger] r[i]),
        ) by {
            assert(r[i] == s[i]);
            if j < s.len() {
                assert(r[j] == s[j]);
            } else if text::before(ke, T::key_of(s[i])) {
                let kl = T::key_of(s.last());
                if i < s.len() - 1 {
                    assert(!text::before(T::key_of(s[s.len() - 1]), T::key_of(s[i])));
                    text::lemma_before_total(T::key_of(s[i]), kl);
                    if T::key_of(s[i]) != kl {
                        text::lemma_before_transitive(ke, T::key_of(s[i]), kl);
                    }
                }
            }
        }
        assert forall|k: Seq<char>|
            (forall|i: int| 0 <= i < s.len() ==> !text::before(k, T::key_of(#[trigger] s[i])))
                && !text::before(k, ke) implies forall|i: int|
            0 <= i < r.len() ==> !#[trigger] text::before(k, T::key_of(r[i])) by {
            assert forall|i: int| 0 <= i < r.len() implies !#[trigger] text::before(
                k,
                T::key_of(r[i]),
            ) by {
                if i < s.len() {
                    assert(r[i] == s[i]);
                }
            }
        }
    }
}

/// The result of sorting is in order.
pub proof fn lemma_sorted_in_order<T: Keyed>(s: Seq<T::V>)
    ensures
        in_order::<T>(sorted::<T>(s)),
    decreases s.len(),
{
    if s.len() > 0 {
        lemma_sorted_in_order::<T>(s.drop_last());
        lemma_insert_in_order::<T>(sorted::<T>(s.drop_last()), s.last());
    }
}

/// Sorting leaves a sequence that is in order as it is.
pub proof fn lemma_sorted_fixed<T: Keyed>(s: Seq<T::V>)
    requires
        in_order::<T>(s),
    ensures
        sorted::<T>(s) == s,
    decreases s.len(),
{
    if s.len() > 0 {
        let d = s.drop_last();
        assert forall|i: int, j: int| 0 <= i < j < d.len() implies !text::before(
            T::key_of(#[trigger] d[j]),
            T::key_of(#[trigger] d[i]),
        ) by {
            assert(d[j] == s[j] && d[i] == s[i]);
        }
        lemma_sorted_fixed::<T>(d);
        if d.len() > 0 {
            assert(d.last() == s[s.len() - 2]);
            assert(!text::before(T::key_of(s[s.len() - 1]), T::key_of(s[s.len() - 2])));
        }
        assert(s =~= d.push(s.last()));
    }
}

/// The views of a vector that was filled from its end.
spec fn backwards<T: Keyed>(s: Seq<T>) -> Seq<T::V> {
    Seq::new(s.len(), |i: int| s[s.len() - 1 - i]@)
}

/// Merges two vectors.
fn merge<T: Keyed>(x: Vec<T>, y: Vec<T>) -> (r: Vec<T>)
    ensures
        views(r@) == merged::<T>(views(x@), views(y@)),
{
    let mut a = x;
    let mut b = y;
    let mut rev: Vec<T> = Vec::new();
    let ghost whole = merged::<T>(views(a@), views(b@));
    assert(whole + backwards(rev@) =~= whole);
    while b.len() > 0
        invariant
            merged::<T>(views(a@), views(b@)) + backwards(rev@) == whole,
        decreases a@.len() + b@.len(),
    {
        let ghost va = views(a@);
        let ghost vb = views(b@);
        let ghost old_rev = rev@;
        let from_b = a.len() == 0 || !text_before(
            b[b.len() - 1].key_text(),
            a[a.len() - 1].key_text(),
        );
        if from_b {
            match b.pop() {
                Some(e) => {
                    rev.push(e);
                    proof {
                        assert(views(b@) =~= vb.drop_last());
                        assert(backwards(rev@) =~= seq![e@] + backwards(old_rev));
                        assert(e@ == vb.last());
                        assert(merged::<T>(va, vb.drop_last()).push(e@) + backwards(old_rev)
                            =~= merged::<T>(va, vb.drop_last()) + (seq![e@] + backwards(old_rev)));
                    }
                },
                None => {
                    return a;
                },
            }
        } else {
            match a.pop() {
                Some(e) => {
                    rev.push(e);
                    proof {
                        assert(views(a@) =~= va.drop_last());
                        assert(backwards(rev@) =~= seq![e@] + backwards(old_rev));
                        assert(e@ == va.last());
                        assert(merged::<T>(va.drop_last(), vb).push(e@) + backwards(old_rev)
                            =~= merged::<T>(va.drop_last(), vb) + (seq![e@] + backwards(old_rev)));
                    }
                },
                None => {
                    return b;
                },
            }
        }
    }
    let mut out = a;
    while rev.len() > 0
        invariant
            views(out@) + backwards(rev@) == whole,
        decreases rev@.len(),
    {
        let ghost old_out = out@;
        let ghost old_rev = rev@;
        match rev.pop() {
            Some(e) => {
                out.push(e);
                proof {
                    assert(views(out@) =~= views(old_out).push(e@));
                    assert(backwards(old_rev) =~= seq![e@] + backwards(rev@));
                    assert(views(out@) + backwards(rev@) =~= views(old_out) + backwards(old_rev));
                }
            },
            None => {
                return out;
            },
        }
    }
    assert(views(out@) + backwards(rev@) =~= views(out@));
    out
}

/// The vector sorted by key, stably.
pub fn sort_by_key<T: Keyed>(v: Vec<T>) -> (r: Vec<T>)
    ensures
        views(r@) == sorted::<T>(views(v@)),
    decreases v@.len(),
{
    let ghost all = views(v@);
    if v.len() <= 1 {
        proof {
            lemma_sorted_fixed::<T>(all);
        }
        return v;
    }
    let mut first = v;
    let half: usize = first.len() / 2;
    let second = first.split_off(half);
    proof {
        assert(views(first@) + views(second@) =~= all);
        lemma_sorted_concat::<T>(views(first@), views(second@));
    }
    let a = sort_by_key(first);
    let b = sort_by_key(second);
    merge(a, b)
}

impl Keyed for String {
    open spec fn key_of(v: Seq<char>) -> Seq<char> {
        v
    }

    fn key_text(&self) -> (r: &str) {
        self.as_str()
    }
}

/// The elements of one key, in their order.
pub open spec fn of_key<T: Keyed>(s: Seq<T::V>, k: Seq<char>) -> Seq<T::V> {
    s.filter(|e: T::V| T::key_of(e) == k)
}

proof fn lemma_of_key_push<T: Keyed>(s: Seq<T::V>, e: T::V, k: Seq<char>)
    ensures
        of_key::<T>(s.push(e), k) == if T::key_of(e) == k {
            of_key::<T>(s, k).push(e)
        } else {
            of_key::<T>(s, k)
        },
{
    reveal(Seq::filter);
    assert(s.push(e).drop_last() =~= s);
}

proof fn lemma_insert_is_stable<T: Keyed>(s: Seq<T::V>, e: T::V, k: Seq<char>)
    ensures
        of_key::<T>(insert_in_order::<T>(s, e), k) == of_key::<T>(s.push(e), k),
    decreases s.len(),
{
    if s.len() > 0 && text::before(T::key_of(e), T::key_of(s.last())) {
        let d = s.drop_last();
        lemma_insert_is_stable::<T>(d, e, k);
        assert(d.push(s.last()) =~= s);
        lemma_of_key_push::<T>(insert_in_order::<T>(d, e), s.last(), k);
        lemma_of_key_push::<T>(d, e, k);
        lemma_of_key_push::<T>(d, s.last(), k);
        lemma_of_key_push::<T>(s, e, k);
        text::lemma_before_irreflexive(T::key_of(e));
    }
}

/// Sorting leaves the elements of one key in their order.
pub proof fn law_sort_is_stable<T: Keyed>(s: Seq<T::V>, k: Seq<char>)
    ensures
        of_key::<T>(sorted::<T>(s), k) == of_key::<T>(s, k),
    decreases s.len(),
{
    if s.len() > 0 {
        let d = s.drop_last();
        law_sort_is_stable::<T>(d, k);
        lemma_insert_is_stable::<T>(sorted::<T>(d), s.last(), k);
        lemma_of_key_push::<T>(sorted::<T>(d), s.last(), k);
        lemma_of_key_push::<T>(d, s.last(), k);
        assert(d.push(s.last()) =~= s);
    }
}

} // verus!
