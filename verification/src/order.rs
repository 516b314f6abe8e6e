//! Orders used by the reports: the order of strings (`str`'s `Ord`, which on
//! characters is the lexicographic order of their code points), and stable
//! insertion into a sequence kept in order.

use vstd::multiset::Multiset;
use vstd::prelude::*;

verus! {

/// The result of comparing two values.
#[derive(Debug, Clone, Copy, PartialEq, Eq, Structural)]
pub enum Comparison {
    Less,
    Equal,
    Greater,
}

/// `a` sorts strictly before `b` in the order of `str`.
pub open spec fn str_lt(a: Seq<char>, b: Seq<char>) -> bool
    decreases a.len(),
{
    if a.len() == 0 {
        b.len() > 0
    } else if b.len() == 0 {
        false
    } else if a[0] != b[0] {
        a[0] < b[0]
    } else {
        str_lt(a.drop_first(), b.drop_first())
    }
}

pub proof fn lemma_str_lt_irreflexive(a: Seq<char>)
    ensures
        !str_lt(a, a),
    decreases a.len(),
{
    if a.len() > 0 {
        lemma_str_lt_irreflexive(a.drop_first());
    }
}

pub proof fn lemma_str_lt_asymmetric(a: Seq<char>, b: Seq<char>)
    ensures
        !(str_lt(a, b) && str_lt(b, a)),
    decreases a.len(),
{
    if a.len() > 0 && b.len() > 0 && a[0] == b[0] {
        lemma_str_lt_asymmetric(a.drop_first(), b.drop_first());
    }
}

pub proof fn lemma_str_lt_transitive(a: Seq<char>, b: Seq<char>, c: Seq<char>)
    requires
        str_lt(a, b),
        str_lt(b, c),
    ensures
        str_lt(a, c),
    decreases a.len(),
{
    if a.len() > 0 && b.len() > 0 && c.len() > 0 && a[0] == b[0] && b[0] == c[0] {
        lemma_str_lt_transitive(a.drop_first(), b.drop_first(), c.drop_first());
    }
}

pub proof fn lemma_str_lt_total(a: Seq<char>, b: Seq<char>)
    ensures
        a == b || str_lt(a, b) || str_lt(b, a),
    decreases a.len(),
{
    if a.len() > 0 && b.len() > 0 && a[0] == b[0] {
        lemma_str_lt_total(a.drop_first(), b.drop_first());
        if a.drop_first() == b.drop_first() {
            assert forall|i: int| 0 <= i < a.len() implies a[i] == b[i] by {
                if i > 0 {
                    assert(a[i] == a.drop_first()[i - 1]);
                    assert(b[i] == b.drop_first()[i - 1]);
                }
            }
            assert(a =~= b);
        }
    } else if a.len() == 0 && b.len() == 0 {
        assert(a =~= b);
    }
}

/// The comparison of two strings that `Comparison` names.
pub open spec fn compare_of(a: Seq<char>, b: Seq<char>) -> Comparison {
    if a == b {
        Comparison::Equal
    } else if str_lt(a, b) {
        Comparison::Less
    } else {
        Comparison::Greater
    }
}

/// Compare two character slices as `str`'s `cmp` does.
pub fn compare_chars(a: &[char], b: &[char]) -> (r: Comparison)
    ensures
        r == compare_of(a@, b@),
        r == Comparison::Greater ==> str_lt(b@, a@),
{
    let mut i: usize = 0;
    proof {
        assert(a@.skip(0) =~= a@);
        assert(b@.skip(0) =~= b@);
    }
    while i < a.len() && i < b.len()
        invariant
            i <= a@.len(),
            i <= b@.len(),
            a@.take(i as int) == b@.take(i as int),
            str_lt(a@, b@) == str_lt(a@.skip(i as int), b@.skip(i as int)),
            str_lt(b@, a@) == str_lt(b@.skip(i as int), a@.skip(i as int)),
        decreases a.len() - i,
    {
        if a[i] != b[i] {
            proof {
                assert(a@.skip(i as int)[0] == a@[i as int]);
                assert(b@.skip(i as int)[0] == b@[i as int]);
                assert(a@ != b@ ==> true);
                if a@ == b@ {
                    assert(a@[i as int] == b@[i as int]);
                }
                lemma_str_lt_asymmetric(a@, b@);
            }
            if a[i] < b[i] {
                return Comparison::Less;
            } else {
                return Comparison::Greater;
            }
        }
        proof {
            assert(a@.skip(i as int).drop_first() =~= a@.skip(i + 1));
            assert(b@.skip(i as int).drop_first() =~= b@.skip(i + 1));
            assert(a@.take(i + 1) =~= a@.take(i as int).push(a@[i as int]));
            assert(b@.take(i + 1) =~= b@.take(i as int).push(b@[i as int]));
        }
        i += 1;
    }
    proof {
        assert(a@.skip(i as int).len() == 0 || b@.skip(i as int).len() == 0);
        if a@.len() == b@.len() {
            assert(a@ =~= a@.take(i as int));
            assert(b@ =~= b@.take(i as int));
        }
        lemma_str_lt_asymmetric(a@, b@);
    }
    if a.len() == b.len() {
        Comparison::Equal
    } else if a.len() < b.len() {
        Comparison::Less
    } else {
        Comparison::Greater
    }
}

// ---------------------------------------------------------------------------
// Stable insertion
// ---------------------------------------------------------------------------

/// `x` inserted into `t` just before the first element that `x` must precede.
pub open spec fn insert_by<T>(t: Seq<T>, x: T, before: spec_fn(T, T) -> bool) -> Seq<T>
    decreases t.len(),
{
    if t.len() == 0 {
        seq![x]
    } else if before(x, t[0]) {
        seq![x] + t
    } else {
        seq![t[0]] + insert_by(t.drop_first(), x, before)
    }
}

/// `s` sorted by `before`, elements that neither precedes keeping their order
/// (insertion sort, which is stable).
pub open spec fn sort_by<T>(s: Seq<T>, before: spec_fn(T, T) -> bool) -> Seq<T>
    decreases s.len(),
{
    if s.len() == 0 {
        Seq::empty()
    } else {
        insert_by(sort_by(s.drop_last(), before), s.last(), before)
    }
}

/// `k` is where `insert_by` places `x`: the first element `x` must precede,
/// or the end.
pub open spec fn is_insert_point<T>(t: Seq<T>, x: T, before: spec_fn(T, T) -> bool, k: int) -> bool {
    &&& 0 <= k <= t.len()
    &&& forall|j: int| 0 <= j < k ==> !before(x, #[trigger] t[j])
    &&& k < t.len() ==> before(x, t[k])
}

pub proof fn lemma_insert_by_at<T>(t: Seq<T>, x: T, before: spec_fn(T, T) -> bool, k: int)
    requires
        is_insert_point(t, x, before, k),
    ensures
        insert_by(t, x, before) == t.take(k) + seq![x] + t.skip(k),
    decreases t.len(),
{
    if t.len() == 0 {
        assert(t.take(k) + seq![x] + t.skip(k) =~= seq![x]);
    } else if k == 0 {
        assert(t.take(0) + seq![x] + t.skip(0) =~= seq![x] + t);
    } else {
        assert(!before(x, t[0]));
        let r = t.drop_first();
        assert(is_insert_point(r, x, before, k - 1)) by {
            assert forall|j: int| 0 <= j < k - 1 implies !before(x, #[trigger] r[j]) by {
                assert(r[j] == t[j + 1]);
            }
            if k - 1 < r.len() {
                assert(r[k - 1] == t[k]);
            }
        }
        lemma_insert_by_at(r, x, before, k - 1);
        assert(seq![t[0]] + (r.take(k - 1) + seq![x] + r.skip(k - 1)) =~= t.take(k) + seq![x] + t.skip(k));
    }
}

/// `before` is transitive.
pub open spec fn transitive<T>(before: spec_fn(T, T) -> bool) -> bool {
    forall|a: T, b: T, c: T| #[trigger] before(a, b) && #[trigger] before(b, c) ==> before(a, c)
}

/// No element must precede itself.
pub open spec fn irreflexive<T>(before: spec_fn(T, T) -> bool) -> bool {
    forall|a: T| !#[trigger] before(a, a)
}

/// No element of `s` must precede an earlier one.
pub open spec fn sorted_by<T>(s: Seq<T>, before: spec_fn(T, T) -> bool) -> bool {
    forall|i: int, j: int| 0 <= i < j < s.len() ==> !before(#[trigger] s[j], #[trigger] s[i])
}

pub proof fn lemma_insert_point_exists<T>(t: Seq<T>, x: T, before: spec_fn(T, T) -> bool) -> (k: int)
    ensures
        is_insert_point(t, x, before, k),
    decreases t.len(),
{
    if t.len() == 0 {
        0
    } else if before(x, t[0]) {
        0
    } else {
        let k = lemma_insert_point_exists(t.drop_first(), x, before);
        assert forall|j: int| 0 <= j < k + 1 implies !before(x, #[trigger] t[j]) by {
            if j > 0 {
                assert(t[j] == t.drop_first()[j - 1]);
            }
        }
        if k + 1 < t.len() {
            assert(t[k + 1] == t.drop_first()[k]);
        }
        k + 1
    }
}

pub proof fn lemma_insert_by_sorted<T>(t: Seq<T>, x: T, before: spec_fn(T, T) -> bool)
    requires
        transitive(before),
        irreflexive(before),
        sorted_by(t, before),
    ensures
        sorted_by(insert_by(t, x, before), before),
        insert_by(t, x, before).to_multiset() == t.to_multiset().insert(x),
{
    let k = lemma_insert_point_exists(t, x, before);
    lemma_insert_by_at(t, x, before, k);
    let r = t.take(k) + seq![x] + t.skip(k);
    assert forall|i: int, j: int| 0 <= i < j < r.len() implies !before(#[trigger] r[j], #[trigger] r[i]) by {
        if j < k {
            assert(r[i] == t[i] && r[j] == t[j]);
        } else if j == k {
            assert(r[i] == t[i]);
        } else if i == k {
            assert(r[i] == x);
            assert(r[j] == t[j - 1]);
            assert(k < t.len());
            if before(t[j - 1], x) {
                assert(before(x, t[k]));
                assert(before(t[j - 1], t[k]));
                if j - 1 > k {
                    assert(!before(t[j - 1], t[k]));
                } else {
                    assert(!before(t[k], t[k]));
                }
            }
        } else if i < k {
            assert(r[i] == t[i] && r[j] == t[j - 1]);
        } else {
            assert(r[i] == t[i - 1] && r[j] == t[j - 1]);
        }
    }
    vstd::seq_lib::lemma_multiset_commutative(t.take(k) + seq![x], t.skip(k));
    vstd::seq_lib::lemma_multiset_commutative(t.take(k), seq![x]);
    vstd::seq_lib::lemma_multiset_commutative(t.take(k), t.skip(k));
    assert(t.take(k) + t.skip(k) =~= t);
    assert(seq![x].to_multiset() =~= Multiset::empty().insert(x)) by {
        broadcast use vstd::seq_lib::group_to_multiset_ensures;
        broadcast use vstd::multiset::group_multiset_axioms;

        assert(seq![x] =~= Seq::<T>::empty().push(x));
        vstd::seq_lib::to_multiset_build(Seq::<T>::empty(), x);
        assert(Seq::<T>::empty().to_multiset() =~= Multiset::empty());
    }
    assert(r.to_multiset() =~= t.to_multiset().insert(x)) by {
        broadcast use vstd::multiset::group_multiset_axioms;

    }
}

/// An insertion sort is sorted and holds the same elements.
pub proof fn lemma_sort_by_sorted<T>(s: Seq<T>, before: spec_fn(T, T) -> bool)
    requires
        transitive(before),
        irreflexive(before),
    ensures
        sorted_by(sort_by(s, before), before),
        sort_by(s, before).to_multiset() == s.to_multiset(),
    decreases s.len(),
{
    if s.len() == 0 {
        assert(sort_by(s, before) =~= Seq::<T>::empty());
        assert(s =~= Seq::<T>::empty());
    } else {
        lemma_sort_by_sorted(s.drop_last(), before);
        lemma_insert_by_sorted(sort_by(s.drop_last(), before), s.last(), before);
        assert(s =~= s.drop_last().push(s.last()));
        vstd::seq_lib::to_multiset_build(s.drop_last(), s.last());
    }
}

} // verus!
