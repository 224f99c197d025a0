use vstd::prelude::*;
use vstd::multiset::Multiset;
use vstd::seq_lib::lemma_multiset_commutative;

verus! {

/// Order key of an element on axis `axis` (0 for x, 1 for y, anything else for z).
pub open spec fn key_on(k: (u64, u64, u64), axis: usize) -> u64 {
    if axis == 0 {
        k.0
    } else if axis == 1 {
        k.1
    } else {
        k.2
    }
}

/// Key of element `e` on `axis`.
pub open spec fn key_at(keys: Seq<(u64, u64, u64)>, axis: usize, e: usize) -> u64 {
    key_on(keys[e as int], axis)
}

/// Whether the element indices in `s` appear in non-decreasing order of their keys on `axis`.
pub open spec fn sorted_on(s: Seq<usize>, keys: Seq<(u64, u64, u64)>, axis: usize) -> bool {
    forall|i: int, j: int|
        0 <= i < j < s.len() ==> key_at(keys, axis, s[i]) <= key_at(keys, axis, s[j])
}

/// Whether every index in `s` is below `n`.
pub open spec fn indexes_in(s: Seq<usize>, n: int) -> bool {
    forall|i: int| 0 <= i < s.len() ==> s[i] < n
}

/// The elements of `s` whose key on `axis` is `k`, in their order in `s`.
pub open spec fn with_key(s: Seq<usize>, keys: Seq<(u64, u64, u64)>, axis: usize, k: u64) -> Seq<
    usize,
>
    decreases s.len(),
{
    if s.len() == 0 {
        s
    } else if key_at(keys, axis, s[0]) == k {
        seq![s[0]] + with_key(s.drop_first(), keys, axis, k)
    } else {
        with_key(s.drop_first(), keys, axis, k)
    }
}

/// Merge of two lists: the head of `a` goes first unless the head of `b` has a
/// smaller key, so that of two equal keys the one from `a` comes first.
pub open spec fn merge_on(a: Seq<usize>, b: Seq<usize>, keys: Seq<(u64, u64, u64)>, axis: usize) -> Seq<
    usize,
>
    decreases a.len() + b.len(),
{
    if a.len() == 0 {
        b
    } else if b.len() == 0 {
        a
    } else if key_at(keys, axis, a[0]) <= key_at(keys, axis, b[0]) {
        seq![a[0]] + merge_on(a.drop_first(), b, keys, axis)
    } else {
        seq![b[0]] + merge_on(a, b.drop_first(), keys, axis)
    }
}

/// The stable sort of `s` by key on `axis`: each half sorted, then merged.
pub open spec fn sort_on(s: Seq<usize>, keys: Seq<(u64, u64, u64)>, axis: usize) -> Seq<usize>
    decreases s.len(),
{
    if s.len() <= 1 {
        s
    } else {
        merge_on(
            sort_on(s.take((s.len() / 2) as int), keys, axis),
            sort_on(s.skip((s.len() / 2) as int), keys, axis),
            keys,
            axis,
        )
    }
}

proof fn lemma_with_key_concat(
    a: Seq<usize>,
    b: Seq<usize>,
    keys: Seq<(u64, u64, u64)>,
    axis: usize,
    k: u64,
)
    ensures
        with_key(a + b, keys, axis, k) == with_key(a, keys, axis, k) + with_key(b, keys, axis, k),
    decreases a.len(),
{
    if a.len() == 0 {
        assert(a + b =~= b);
        assert(with_key(a, keys, axis, k) + with_key(b, keys, axis, k) =~= with_key(b, keys, axis, k));
    } else {
        assert((a + b).drop_first() =~= a.drop_first() + b);
        assert((a + b)[0] == a[0]);
        lemma_with_key_concat(a.drop_first(), b, keys, axis, k);
        if key_at(keys, axis, a[0]) == k {
            assert(seq![a[0]] + (with_key(a.drop_first(), keys, axis, k) + with_key(b, keys, axis, k))
                =~= (seq![a[0]] + with_key(a.drop_first(), keys, axis, k)) + with_key(b, keys, axis, k));
        }
    }
}

proof fn lemma_with_key_none(s: Seq<usize>, keys: Seq<(u64, u64, u64)>, axis: usize, k: u64)
    requires
        forall|i: int| 0 <= i < s.len() ==> key_at(keys, axis, s[i]) != k,
    ensures
        with_key(s, keys, axis, k) == Seq::<usize>::empty(),
    decreases s.len(),
{
    if s.len() > 0 {
        assert(key_at(keys, axis, s[0]) != k);
        assert forall|i: int| 0 <= i < s.drop_first().len() implies key_at(
            keys,
            axis,
            s.drop_first()[i],
        ) != k by {
            assert(s.drop_first()[i] == s[i + 1]);
        }
        lemma_with_key_none(s.drop_first(), keys, axis, k);
    } else {
        assert(s =~= Seq::<usize>::empty());
    }
}

proof fn lemma_merge_bound(
    a: Seq<usize>,
    b: Seq<usize>,
    keys: Seq<(u64, u64, u64)>,
    axis: usize,
    lb: u64,
    n: int,
)
    requires
        forall|i: int| 0 <= i < a.len() ==> key_at(keys, axis, a[i]) >= lb && a[i] < n,
        forall|i: int| 0 <= i < b.len() ==> key_at(keys, axis, b[i]) >= lb && b[i] < n,
    ensures
        forall|i: int|
            0 <= i < merge_on(a, b, keys, axis).len() ==> key_at(
                keys,
                axis,
                merge_on(a, b, keys, axis)[i],
            ) >= lb && merge_on(a, b, keys, axis)[i] < n,
    decreases a.len() + b.len(),
{
    if a.len() > 0 && b.len() > 0 {
        let a1 = a.drop_first();
        let b1 = b.drop_first();
        if key_at(keys, axis, a[0]) <= key_at(keys, axis, b[0]) {
            assert forall|i: int| 0 <= i < a1.len() implies key_at(keys, axis, a1[i]) >= lb
                && a1[i] < n by {
                assert(a1[i] == a[i + 1]);
            }
            lemma_merge_bound(a1, b, keys, axis, lb, n);
            let rest = merge_on(a1, b, keys, axis);
            let m = seq![a[0]] + rest;
            assert forall|i: int| 0 < i < m.len() implies m[i] == rest[i - 1] by {}
        } else {
            assert forall|i: int| 0 <= i < b1.len() implies key_at(keys, axis, b1[i]) >= lb
                && b1[i] < n by {
                assert(b1[i] == b[i + 1]);
            }
            lemma_merge_bound(a, b1, keys, axis, lb, n);
            let rest = merge_on(a, b1, keys, axis);
            let m = seq![b[0]] + rest;
            assert forall|i: int| 0 < i < m.len() implies m[i] == rest[i - 1] by {}
        }
    }
}

proof fn lemma_merge(a: Seq<usize>, b: Seq<usize>, keys: Seq<(u64, u64, u64)>, axis: usize)
    requires
        sorted_on(a, keys, axis),
        sorted_on(b, keys, axis),
    ensures
        sorted_on(merge_on(a, b, keys, axis), keys, axis),
        merge_on(a, b, keys, axis).to_multiset() == a.to_multiset().add(b.to_multiset()),
        forall|k: u64|
            #[trigger] with_key(merge_on(a, b, keys, axis), keys, axis, k) == with_key(
                a,
                keys,
                axis,
                k,
            ) + with_key(b, keys, axis, k),
    decreases a.len() + b.len(),
{
    let m = merge_on(a, b, keys, axis);
    if a.len() == 0 {
        assert(a.to_multiset() =~= Multiset::empty()) by {
            a.to_multiset_ensures();
        }
        assert(m.to_multiset() =~= a.to_multiset().add(b.to_multiset()));
        assert forall|k: u64| #[trigger] with_key(m, keys, axis, k) == with_key(a, keys, axis, k)
            + with_key(b, keys, axis, k) by {
            assert(with_key(a, keys, axis, k) + with_key(b, keys, axis, k) =~= with_key(
                b,
                keys,
                axis,
                k,
            ));
        }
    } else if b.len() == 0 {
        assert(b.to_multiset() =~= Multiset::empty()) by {
            b.to_multiset_ensures();
        }
        assert(m.to_multiset() =~= a.to_multiset().add(b.to_multiset()));
        assert forall|k: u64| #[trigger] with_key(m, keys, axis, k) == with_key(a, keys, axis, k)
            + with_key(b, keys, axis, k) by {
            assert(with_key(a, keys, axis, k) + with_key(b, keys, axis, k) =~= with_key(
                a,
                keys,
                axis,
                k,
            ));
        }
    } else {
        let a1 = a.drop_first();
        let b1 = b.drop_first();
        assert(a =~= seq![a[0]] + a1);
        assert(b =~= seq![b[0]] + b1);
        lemma_multiset_commutative(seq![a[0]], a1);
        lemma_multiset_commutative(seq![b[0]], b1);
        assert(sorted_on(a1, keys, axis)) by {
            assert forall|i: int, j: int| 0 <= i < j < a1.len() implies key_at(keys, axis, a1[i])
                <= key_at(keys, axis, a1[j]) by {
                assert(a1[i] == a[i + 1] && a1[j] == a[j + 1]);
            }
        }
        assert(sorted_on(b1, keys, axis)) by {
            assert forall|i: int, j: int| 0 <= i < j < b1.len() implies key_at(keys, axis, b1[i])
                <= key_at(keys, axis, b1[j]) by {
                assert(b1[i] == b[i + 1] && b1[j] == b[j + 1]);
            }
        }
        let (x, rest, other, first_from_a) = if key_at(keys, axis, a[0]) <= key_at(
            keys,
            axis,
            b[0],
        ) {
            (a[0], merge_on(a1, b, keys, axis), b, true)
        } else {
            (b[0], merge_on(a, b1, keys, axis), a, false)
        };
        assert(m == seq![x] + rest);
        if first_from_a {
            lemma_merge(a1, b, keys, axis);
            lemma_merge_bound(a1, b, keys, axis, key_at(keys, axis, a[0]), usize::MAX + 1);
        } else {
            lemma_merge(a, b1, keys, axis);
            lemma_merge_bound(a, b1, keys, axis, key_at(keys, axis, b[0]), usize::MAX + 1);
        }
        // sorted
        assert forall|i: int, j: int| 0 <= i < j < m.len() implies key_at(keys, axis, m[i])
            <= key_at(keys, axis, m[j]) by {
            assert(m[j] == rest[j - 1]);
            if i > 0 {
                assert(m[i] == rest[i - 1]);
            }
        }
        // multiset
        lemma_multiset_commutative(seq![x], rest);
        assert(m.to_multiset() =~= a.to_multiset().add(b.to_multiset()));
        // stability
        assert(m.drop_first() =~= rest);
        assert forall|k: u64| #[trigger] with_key(m, keys, axis, k) == with_key(a, keys, axis, k)
            + with_key(b, keys, axis, k) by {
            assert(m[0] == x);
            assert(with_key(rest, keys, axis, k) == (if first_from_a {
                with_key(a1, keys, axis, k) + with_key(b, keys, axis, k)
            } else {
                with_key(a, keys, axis, k) + with_key(b1, keys, axis, k)
            }));
            if first_from_a {
                if key_at(keys, axis, x) == k {
                    assert(seq![x] + (with_key(a1, keys, axis, k) + with_key(b, keys, axis, k))
                        =~= (seq![x] + with_key(a1, keys, axis, k)) + with_key(b, keys, axis, k));
                }
            } else {
                if key_at(keys, axis, x) == k {
                    assert forall|i: int| 0 <= i < a.len() implies key_at(keys, axis, a[i]) != k by {
                        if i > 0 {
                            assert(key_at(keys, axis, a[0]) <= key_at(keys, axis, a[i]));
                        }
                    }
                    lemma_with_key_none(a, keys, axis, k);
                    assert(seq![x] + (with_key(a, keys, axis, k) + with_key(b1, keys, axis, k))
                        =~= with_key(a, keys, axis, k) + (seq![x] + with_key(b1, keys, axis, k)));
                }
            }
        }
    }
}

/// The stable sort is sorted, keeps the elements, and keeps the order of the
/// elements of each key.
pub proof fn lemma_sort_on(s: Seq<usize>, keys: Seq<(u64, u64, u64)>, axis: usize)
    ensures
        sorted_on(sort_on(s, keys, axis), keys, axis),
        sort_on(s, keys, axis).to_multiset() == s.to_multiset(),
        forall|k: u64|
            #[trigger] with_key(sort_on(s, keys, axis), keys, axis, k) == with_key(
                s,
                keys,
                axis,
                k,
            ),
    decreases s.len(),
{
    if s.len() > 1 {
        let l = s.take((s.len() / 2) as int);
        let r = s.skip((s.len() / 2) as int);
        assert(s =~= l + r);
        lemma_sort_on(l, keys, axis);
        lemma_sort_on(r, keys, axis);
        lemma_merge(sort_on(l, keys, axis), sort_on(r, keys, axis), keys, axis);
        lemma_multiset_commutative(l, r);
        assert forall|k: u64| #[trigger] with_key(sort_on(s, keys, axis), keys, axis, k)
            == with_key(s, keys, axis, k) by {
            lemma_with_key_concat(l, r, keys, axis, k);
        }
    } else {
        assert(sorted_on(s, keys, axis)) by {
            assert forall|i: int, j: int| 0 <= i < j < s.len() implies key_at(keys, axis, s[i])
                <= key_at(keys, axis, s[j]) by {}
        }
    }
}

proof fn lemma_sort_on_within(s: Seq<usize>, keys: Seq<(u64, u64, u64)>, axis: usize, n: int)
    requires
        indexes_in(s, n),
    ensures
        indexes_in(sort_on(s, keys, axis), n),
    decreases s.len(),
{
    if s.len() > 1 {
        let l = s.take((s.len() / 2) as int);
        let r = s.skip((s.len() / 2) as int);
        lemma_sort_on_within(l, keys, axis, n);
        lemma_sort_on_within(r, keys, axis, n);
        lemma_merge_bound(sort_on(l, keys, axis), sort_on(r, keys, axis), keys, axis, 0, n);
    }
}

fn key_of(keys: &Vec<(u64, u64, u64)>, index: usize, axis: usize) -> (r: u64)
    requires
        index < keys.len(),
    ensures
        r == key_at(keys@, axis, index),
{
    let k = keys[index];
    if axis == 0 {
        k.0
    } else if axis == 1 {
        k.1
    } else {
        k.2
    }
}

fn merge(a: &Vec<usize>, b: &Vec<usize>, keys: &Vec<(u64, u64, u64)>, axis: usize) -> (r: Vec<
    usize,
>)
    requires
        indexes_in(a@, keys.len() as int),
        indexes_in(b@, keys.len() as int),
    ensures
        r@ == merge_on(a@, b@, keys@, axis),
{
    let mut out: Vec<usize> = Vec::new();
    let mut i: usize = 0;
    let mut j: usize = 0;
    assert(a@.skip(0) =~= a@ && b@.skip(0) =~= b@);
    assert(out@ + merge_on(a@, b@, keys@, axis) =~= merge_on(a@, b@, keys@, axis));
    while i < a.len() || j < b.len()
        invariant
            i <= a.len(),
            j <= b.len(),
            indexes_in(a@, keys.len() as int),
            indexes_in(b@, keys.len() as int),
            out@ + merge_on(a@.skip(i as int), b@.skip(j as int), keys@, axis) == merge_on(
                a@,
                b@,
                keys@,
                axis,
            ),
        decreases a.len() - i + b.len() - j,
    {
        let ghost sa = a@.skip(i as int);
        let ghost sb = b@.skip(j as int);
        let ghost before = out@;
        if i < a.len() && (j == b.len() || key_of(keys, a[i], axis) <= key_of(keys, b[j], axis)) {
            proof {
                assert(sa.drop_first() =~= a@.skip(i + 1));
                assert(sa[0] == a@[i as int]);
                if sb.len() == 0 {
                    assert(sa =~= seq![sa[0]] + sa.drop_first());
                }
                assert(merge_on(sa, sb, keys@, axis) == seq![a@[i as int]] + merge_on(
                    a@.skip(i + 1),
                    sb,
                    keys@,
                    axis,
                ));
            }
            out.push(a[i]);
            i += 1;
            assert(out@ + merge_on(a@.skip(i as int), sb, keys@, axis) =~= before + (seq![
                a@[i - 1],
            ] + merge_on(a@.skip(i as int), sb, keys@, axis)));
        } else {
            proof {
                assert(sb.drop_first() =~= b@.skip(j + 1));
                assert(sb[0] == b@[j as int]);
                if sa.len() == 0 {
                    assert(sb =~= seq![sb[0]] + sb.drop_first());
                }
                assert(merge_on(sa, sb, keys@, axis) == seq![b@[j as int]] + merge_on(
                    sa,
                    b@.skip(j + 1),
                    keys@,
                    axis,
                ));
            }
            out.push(b[j]);
            j += 1;
            assert(out@ + merge_on(sa, b@.skip(j as int), keys@, axis) =~= before + (seq![
                b@[j - 1],
            ] + merge_on(sa, b@.skip(j as int), keys@, axis)));
        }
    }
    assert(out@ + merge_on(a@.skip(i as int), b@.skip(j as int), keys@, axis) =~= out@);
    out
}

fn sort_range(s: &Vec<usize>, lo: usize, hi: usize, keys: &Vec<(u64, u64, u64)>, axis: usize) -> (r:
    Vec<usize>)
    requires
        lo <= hi <= s.len(),
        indexes_in(s@, keys.len() as int),
    ensures
        r@ == sort_on(s@.subrange(lo as int, hi as int), keys@, axis),
        indexes_in(r@, keys.len() as int),
    decreases hi - lo,
{
    let ghost sub = s@.subrange(lo as int, hi as int);
    if hi - lo <= 1 {
        let mut out: Vec<usize> = Vec::new();
        if hi > lo {
            out.push(s[lo]);
        }
        assert(out@ =~= sub);
        return out;
    }
    let mid = lo + (hi - lo) / 2;
    let a = sort_range(s, lo, mid, keys, axis);
    let b = sort_range(s, mid, hi, keys, axis);
    assert(sub.take((sub.len() / 2) as int) =~= s@.subrange(lo as int, mid as int));
    assert(sub.skip((sub.len() / 2) as int) =~= s@.subrange(mid as int, hi as int));
    let r = merge(&a, &b, keys, axis);
    proof {
        lemma_merge_bound(a@, b@, keys@, axis, 0, keys.len() as int);
    }
    r
}

/// Sorts element indices by their key on `axis`, stably: of two elements with the
/// same key, the one earlier in `indexes` comes first.
pub fn sort_by_axis(indexes: &Vec<usize>, keys: &Vec<(u64, u64, u64)>, axis: usize) -> (r: Vec<
    usize,
>)
    requires
        indexes_in(indexes@, keys.len() as int),
    ensures
        r@ == sort_on(indexes@, keys@, axis),
        sorted_on(r@, keys@, axis),
        forall|k: u64| #[trigger] with_key(r@, keys@, axis, k) == with_key(indexes@, keys@, axis, k),
        r@.to_multiset() == indexes@.to_multiset(),
        r@.len() == indexes@.len(),
        indexes_in(r@, keys.len() as int),
{
    let r = sort_range(indexes, 0, indexes.len(), keys, axis);
    proof {
        assert(indexes@.subrange(0, indexes@.len() as int) =~= indexes@);
        lemma_sort_on(indexes@, keys@, axis);
        r@.to_multiset_ensures();
        indexes@.to_multiset_ensures();
    }
    r
}

} // verus!
