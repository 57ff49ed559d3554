//! Counting the members of a sequence, or the numbers below a bound, that
//! have a property.

use vstd::prelude::*;

verus! {

/// How many members of `s` have the property `p`.
pub open spec fn count_where<T>(s: Seq<T>, p: spec_fn(T) -> bool) -> nat
    decreases s.len(),
{
    if s.len() == 0 {
        0
    } else {
        count_where(s.drop_last(), p) + if p(s.last()) {
            1nat
        } else {
            0nat
        }
    }
}

/// How many numbers below `n` have the property `p`.
pub open spec fn count_below(n: nat, p: spec_fn(usize) -> bool) -> nat
    decreases n,
{
    if n == 0 {
        0
    } else {
        count_below((n - 1) as nat, p) + if p((n - 1) as usize) {
            1nat
        } else {
            0nat
        }
    }
}

/// The numbers below `n` that have the property `p`, in ascending order.
pub open spec fn ascending_where(n: nat, p: spec_fn(usize) -> bool) -> Seq<usize>
    decreases n,
{
    if n == 0 {
        Seq::empty()
    } else if p((n - 1) as usize) {
        ascending_where((n - 1) as nat, p).push((n - 1) as usize)
    } else {
        ascending_where((n - 1) as nat, p)
    }
}

/// Each member of the ascending selection is below the bound and has the
/// property, and no number is selected twice.
pub proof fn lemma_ascending_members(n: nat, p: spec_fn(usize) -> bool)
    requires
        n <= usize::MAX,
    ensures
        ascending_where(n, p).len() <= n,
        forall|k: int|
            0 <= k < ascending_where(n, p).len() ==> (#[trigger] ascending_where(n, p)[k]) < n && p(
                ascending_where(n, p)[k],
            ),
        forall|k: int, l: int|
            0 <= k < l < ascending_where(n, p).len() ==> ascending_where(n, p)[k]
                < ascending_where(n, p)[l],
        forall|x: usize| x < n && p(x) ==> ascending_where(n, p).contains(x),
    decreases n,
{
    if n > 0 {
        let before = ascending_where((n - 1) as nat, p);
        let all = ascending_where(n, p);
        lemma_ascending_members((n - 1) as nat, p);
        assert forall|x: usize| x < n && p(x) implies all.contains(x) by {
            if x < n - 1 {
                assert(before.contains(x));
                let k = choose|k: int| 0 <= k < before.len() && before[k] == x;
                assert(all[k] == x);
            } else {
                assert(all[all.len() - 1] == x);
            }
        }
    }
}

/// No more members have a property than there are members.
pub proof fn lemma_count_bound<T>(s: Seq<T>, p: spec_fn(T) -> bool)
    ensures
        count_where(s, p) <= s.len(),
    decreases s.len(),
{
    if s.len() > 0 {
        lemma_count_bound(s.drop_last(), p);
    }
}

/// No more numbers below `n` have a property than `n`.
pub proof fn lemma_count_below_bound(n: nat, p: spec_fn(usize) -> bool)
    ensures
        count_below(n, p) <= n,
    decreases n,
{
    if n > 0 {
        lemma_count_below_bound((n - 1) as nat, p);
    }
}

/// One more member counts when it has the property.
pub proof fn lemma_count_push<T>(s: Seq<T>, x: T, p: spec_fn(T) -> bool)
    ensures
        count_where(s.push(x), p) == count_where(s, p) + if p(x) {
            1nat
        } else {
            0nat
        },
{
    assert(s.push(x).drop_last() =~= s);
}

/// Two properties that agree on the members of `s` count the same.
pub proof fn lemma_count_ext<T>(s: Seq<T>, p: spec_fn(T) -> bool, q: spec_fn(T) -> bool)
    requires
        forall|i: int| 0 <= i < s.len() ==> p(#[trigger] s[i]) == q(s[i]),
    ensures
        count_where(s, p) == count_where(s, q),
    decreases s.len(),
{
    if s.len() > 0 {
        assert forall|i: int| 0 <= i < s.drop_last().len() implies p(#[trigger] s.drop_last()[i])
            == q(s.drop_last()[i]) by {
            assert(s.drop_last()[i] == s[i]);
        }
        lemma_count_ext(s.drop_last(), p, q);
        assert(p(s[s.len() - 1]) == q(s[s.len() - 1]));
    }
}

/// Where each member has `r` just when it has one of `p` and `q`, and none
/// has both, the count of `r` is the sum of the other two.
pub proof fn lemma_count_split<T>(
    s: Seq<T>,
    r: spec_fn(T) -> bool,
    p: spec_fn(T) -> bool,
    q: spec_fn(T) -> bool,
)
    requires
        forall|i: int| 0 <= i < s.len() ==> r(#[trigger] s[i]) == (p(s[i]) || q(s[i])),
        forall|i: int| 0 <= i < s.len() ==> !(p(#[trigger] s[i]) && q(s[i])),
    ensures
        count_where(s, r) == count_where(s, p) + count_where(s, q),
    decreases s.len(),
{
    if s.len() > 0 {
        let d = s.drop_last();
        assert forall|i: int| 0 <= i < d.len() implies r(#[trigger] d[i]) == (p(d[i]) || q(d[i])) by {
            assert(d[i] == s[i]);
        }
        assert forall|i: int| 0 <= i < d.len() implies !(p(#[trigger] d[i]) && q(d[i])) by {
            assert(d[i] == s[i]);
        }
        lemma_count_split(d, r, p, q);
        let last = s[s.len() - 1];
        assert(r(last) == (p(last) || q(last)));
        assert(!(p(last) && q(last)));
    }
}

/// The count is that of the members kept by the property, as a multiset.
proof fn lemma_count_is_multiset_count<T>(s: Seq<T>, p: spec_fn(T) -> bool)
    ensures
        count_where(s, p) == s.to_multiset().filter(p).len(),
    decreases s.len(),
{
    if s.len() == 0 {
        vstd::seq_lib::to_multiset_len(s);
        assert forall|v: T| s.to_multiset().count(v) == 0 by {
            assert(s.to_multiset().count(v) <= s.to_multiset().len());
        }
        assert(s.to_multiset().filter(p) =~= vstd::multiset::Multiset::<T>::empty());
    } else {
        let d = s.drop_last();
        let x = s.last();
        lemma_count_is_multiset_count(d, p);
        assert(d.push(x) =~= s);
        vstd::seq_lib::to_multiset_build(d, x);
        let m = d.to_multiset();
        if p(x) {
            assert(m.insert(x).filter(p) =~= m.filter(p).insert(x));
        } else {
            assert(m.insert(x).filter(p) =~= m.filter(p));
        }
    }
}

/// Two sequences with the same members, in whatever order, count the same.
pub proof fn lemma_count_perm<T>(s: Seq<T>, t: Seq<T>, p: spec_fn(T) -> bool)
    requires
        s.to_multiset() == t.to_multiset(),
    ensures
        count_where(s, p) == count_where(t, p),
{
    lemma_count_is_multiset_count(s, p);
    lemma_count_is_multiset_count(t, p);
}

/// Two sequences with the same members, in whatever order, have a member
/// with a property or both have none.
pub proof fn lemma_exists_perm<T>(s: Seq<T>, t: Seq<T>, p: spec_fn(T) -> bool)
    requires
        s.to_multiset() == t.to_multiset(),
    ensures
        (exists|i: int| 0 <= i < s.len() && p(#[trigger] s[i])) <==> (exists|i: int|
            0 <= i < t.len() && p(#[trigger] t[i])),
{
    if exists|i: int| 0 <= i < s.len() && p(#[trigger] s[i]) {
        let i = choose|i: int| 0 <= i < s.len() && p(#[trigger] s[i]);
        assert(s.contains(s[i]));
        vstd::seq_lib::to_multiset_contains(s, s[i]);
        vstd::seq_lib::to_multiset_contains(t, s[i]);
        let j = choose|j: int| 0 <= j < t.len() && t[j] == s[i];
        assert(p(t[j]));
    }
    if exists|i: int| 0 <= i < t.len() && p(#[trigger] t[i]) {
        let i = choose|i: int| 0 <= i < t.len() && p(#[trigger] t[i]);
        assert(t.contains(t[i]));
        vstd::seq_lib::to_multiset_contains(t, t[i]);
        vstd::seq_lib::to_multiset_contains(s, t[i]);
        let j = choose|j: int| 0 <= j < s.len() && s[j] == t[i];
        assert(p(s[j]));
    }
}

} // verus!
