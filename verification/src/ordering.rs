use vstd::prelude::*;

verus! {

/// Insert `x` into `r` the way a stable insertion sort does: `x` moves in
/// front of the trailing elements that it must precede under `before`.
pub open spec fn insert_stable<T>(r: Seq<T>, x: T, before: spec_fn(T, T) -> bool) -> Seq<T>
    decreases r.len(),
{
    if r.len() == 0 {
        seq![x]
    } else if before(x, r.last()) {
        insert_stable(r.drop_last(), x, before).push(r.last())
    } else {
        r.push(x)
    }
}

/// Stable sort by the strict precedence relation `before`: equal elements
/// keep their input order.
pub open spec fn sort_stable<T>(s: Seq<T>, before: spec_fn(T, T) -> bool) -> Seq<T>
    decreases s.len(),
{
    if s.len() == 0 {
        Seq::empty()
    } else {
        insert_stable(sort_stable(s.drop_last(), before), s.last(), before)
    }
}

/// Inserting past a tail of elements that `x` precedes equals inserting into
/// the head and appending the tail.
pub proof fn lemma_insert_split<T>(r: Seq<T>, x: T, before: spec_fn(T, T) -> bool, m: int)
    requires
        0 <= m <= r.len(),
        forall|i: int| m <= i < r.len() ==> before(x, #[trigger] r[i]),
    ensures
        insert_stable(r, x, before) == insert_stable(r.take(m), x, before) + r.skip(m),
    decreases r.len() - m,
{
    if m == r.len() {
        assert(r.take(m) =~= r);
        assert(r.skip(m) =~= Seq::<T>::empty());
        assert(insert_stable(r.take(m), x, before) + r.skip(m) =~= insert_stable(r, x, before));
    } else {
        assert(before(x, r[r.len() - 1]));
        lemma_insert_split(r.drop_last(), x, before, m);
        assert(r.drop_last().take(m) =~= r.take(m));
        assert(r.drop_last().skip(m).push(r.last()) =~= r.skip(m));
        assert(insert_stable(r, x, before) == insert_stable(r.drop_last(), x, before).push(
            r.last(),
        ));
        assert((insert_stable(r.take(m), x, before) + r.drop_last().skip(m)).push(r.last())
            =~= insert_stable(r.take(m), x, before) + r.skip(m));
    }
}

/// After the bubbling step of an insertion sort stops at position `m`, the
/// result is the stable insertion of `x`.
pub proof fn lemma_insert_at<T>(r: Seq<T>, x: T, before: spec_fn(T, T) -> bool, m: int)
    requires
        0 <= m <= r.len(),
        forall|i: int| m <= i < r.len() ==> before(x, #[trigger] r[i]),
        m > 0 ==> !before(x, r[m - 1]),
    ensures
        insert_stable(r, x, before) == r.take(m) + seq![x] + r.skip(m),
{
    lemma_insert_split(r, x, before, m);
    if m == 0 {
        assert(r.take(m) =~= Seq::<T>::empty());
        assert(insert_stable(r.take(m), x, before) =~= seq![x]);
        assert(r.take(m) + seq![x] =~= seq![x]);
    } else {
        assert(r.take(m).last() == r[m - 1]);
        assert(insert_stable(r.take(m), x, before) == r.take(m).push(x));
        assert(r.take(m).push(x) =~= r.take(m) + seq![x]);
    }
}

pub proof fn lemma_insert_len<T>(r: Seq<T>, x: T, before: spec_fn(T, T) -> bool)
    ensures
        insert_stable(r, x, before).len() == r.len() + 1,
    decreases r.len(),
{
    if r.len() > 0 && before(x, r.last()) {
        lemma_insert_len(r.drop_last(), x, before);
    }
}

pub proof fn lemma_sort_len<T>(s: Seq<T>, before: spec_fn(T, T) -> bool)
    ensures
        sort_stable(s, before).len() == s.len(),
    decreases s.len(),
{
    if s.len() > 0 {
        lemma_sort_len(s.drop_last(), before);
        lemma_insert_len(sort_stable(s.drop_last(), before), s.last(), before);
    }
}

pub proof fn lemma_insert_multiset<T>(r: Seq<T>, x: T, before: spec_fn(T, T) -> bool)
    ensures
        insert_stable(r, x, before).to_multiset() == r.to_multiset().insert(x),
    decreases r.len(),
{
    broadcast use vstd::seq_lib::group_to_multiset_ensures;

    if r.len() == 0 {
        assert(seq![x] =~= Seq::<T>::empty().push(x));
    } else if before(x, r.last()) {
        lemma_insert_multiset(r.drop_last(), x, before);
        assert(r.drop_last().push(r.last()) =~= r);
        assert(r.to_multiset() == r.drop_last().to_multiset().insert(r.last()));
        assert(insert_stable(r, x, before).to_multiset() =~= r.to_multiset().insert(x));
    }
}

/// A stable sort is a permutation of its input.
pub proof fn lemma_sort_multiset<T>(s: Seq<T>, before: spec_fn(T, T) -> bool)
    ensures
        sort_stable(s, before).to_multiset() == s.to_multiset(),
    decreases s.len(),
{
    broadcast use vstd::seq_lib::group_to_multiset_ensures;

    if s.len() > 0 {
        lemma_sort_multiset(s.drop_last(), before);
        lemma_insert_multiset(sort_stable(s.drop_last(), before), s.last(), before);
        assert(s.drop_last().push(s.last()) =~= s);
    }
}

/// Insertion depends on the precedence relation only through its values
/// on `x` and the elements of `r`.
pub proof fn lemma_insert_congruent<T>(r: Seq<T>, x: T, p: spec_fn(T, T) -> bool, q: spec_fn(T, T) -> bool)
    requires
        forall|i: int| 0 <= i < r.len() ==> p(x, #[trigger] r[i]) == q(x, r[i]),
    ensures
        insert_stable(r, x, p) == insert_stable(r, x, q),
    decreases r.len(),
{
    if r.len() > 0 {
        assert(p(x, r[r.len() - 1]) == q(x, r[r.len() - 1]));
        lemma_insert_congruent(r.drop_last(), x, p, q);
    }
}

/// Sorting depends on the precedence relation only through its values on
/// the sorted elements.
pub proof fn lemma_sort_congruent<T>(s: Seq<T>, p: spec_fn(T, T) -> bool, q: spec_fn(T, T) -> bool)
    requires
        forall|x: T, y: T| s.contains(x) && s.contains(y) ==> #[trigger] p(x, y) == #[trigger] q(x, y),
    ensures
        sort_stable(s, p) == sort_stable(s, q),
    decreases s.len(),
{
    broadcast use vstd::seq_lib::group_to_multiset_ensures;

    if s.len() > 0 {
        let d = s.drop_last();
        assert forall|x: T, y: T| d.contains(x) && d.contains(y) implies #[trigger] p(x, y) == #[trigger] q(x, y) by {
            let i = choose|i: int| 0 <= i < d.len() && d[i] == x;
            let j = choose|j: int| 0 <= j < d.len() && d[j] == y;
            assert(s[i] == x && s[j] == y);
        }
        lemma_sort_congruent(d, p, q);
        let r = sort_stable(d, q);
        lemma_sort_multiset(d, q);
        assert forall|i: int| 0 <= i < r.len() implies p(s.last(), #[trigger] r[i]) == q(s.last(), r[i]) by {
            assert(r.to_multiset().count(r[i]) > 0);
            assert(d.contains(r[i]));
            let j = choose|j: int| 0 <= j < d.len() && d[j] == r[i];
            assert(s[j] == r[i]);
            assert(s[s.len() - 1] == s.last());
        }
        lemma_insert_congruent(r, s.last(), p, q);
    }
}

/// Lexicographic comparison of byte sequences from position `i`:
/// `-1` when `a` is smaller, `1` when larger, `0` when equal.
pub open spec fn bytes_order_from(a: Seq<u8>, b: Seq<u8>, i: int) -> int
    decreases a.len() - i,
{
    if i < 0 || i >= a.len() || i >= b.len() {
        0
    } else if a[i] < b[i] {
        -1
    } else if a[i] > b[i] {
        1
    } else {
        bytes_order_from(a, b, i + 1)
    }
}

/// Lexicographic order of 32-byte hashes.
pub open spec fn hash_order(a: [u8; 32], b: [u8; 32]) -> int {
    bytes_order_from(a@, b@, 0)
}

pub open spec fn hash_lt(a: [u8; 32], b: [u8; 32]) -> bool {
    hash_order(a, b) < 0
}

/// Lexicographic comparison of two 32-byte hashes.
pub fn compare_hash(a: &[u8; 32], b: &[u8; 32]) -> (r: i8)
    ensures
        r == hash_order(*a, *b),
{
    let mut i: usize = 0;
    while i < 32
        invariant
            i <= 32,
            a@.len() == 32,
            b@.len() == 32,
            bytes_order_from(a@, b@, 0) == bytes_order_from(a@, b@, i as int),
        decreases 32 - i,
    {
        if a[i] < b[i] {
            return -1;
        } else if a[i] > b[i] {
            return 1;
        }
        i = i + 1;
    }
    0
}

/// Equality of two 32-byte hashes, byte by byte.
pub fn hash_eq(a: &[u8; 32], b: &[u8; 32]) -> (r: bool)
    ensures
        r == (*a == *b),
{
    let mut i: usize = 0;
    while i < 32
        invariant
            i <= 32,
            a@.len() == 32,
            b@.len() == 32,
            forall|j: int| 0 <= j < i ==> a@[j] == b@[j],
        decreases 32 - i,
    {
        if a[i] != b[i] {
            return false;
        }
        i = i + 1;
    }
    proof {
        broadcast use vstd::array::axiom_array_ext_equal;

        assert(*a =~= *b);
    }
    true
}

/// Comparing a byte string with itself from any position finds no difference.
pub proof fn lemma_order_refl(a: Seq<u8>, i: int)
    ensures
        bytes_order_from(a, a, i) == 0,
    decreases a.len() - i,
{
    if 0 <= i < a.len() {
        lemma_order_refl(a, i + 1);
    }
}

/// Swapping the operands negates the comparison.
pub proof fn lemma_order_antisym(a: Seq<u8>, b: Seq<u8>, i: int)
    requires
        a.len() == b.len(),
    ensures
        bytes_order_from(a, b, i) == -bytes_order_from(b, a, i),
    decreases a.len() - i,
{
    if 0 <= i < a.len() && a[i] == b[i] {
        lemma_order_antisym(a, b, i + 1);
    }
}

/// The comparison is transitive.
pub proof fn lemma_order_trans(a: Seq<u8>, b: Seq<u8>, c: Seq<u8>, i: int)
    requires
        a.len() == b.len(),
        b.len() == c.len(),
        bytes_order_from(a, b, i) < 0,
        bytes_order_from(b, c, i) < 0,
    ensures
        bytes_order_from(a, c, i) < 0,
    decreases a.len() - i,
{
    if 0 <= i < a.len() && a[i] == b[i] && b[i] == c[i] {
        lemma_order_trans(a, b, c, i + 1);
    }
}

/// Equal-length byte strings that compare equal from `i` agree from `i` on.
pub proof fn lemma_order_zero(a: Seq<u8>, b: Seq<u8>, i: int)
    requires
        a.len() == b.len(),
        0 <= i,
        bytes_order_from(a, b, i) == 0,
    ensures
        forall|j: int| i <= j < a.len() ==> a[j] == b[j],
    decreases a.len() - i,
{
    if i < a.len() {
        lemma_order_zero(a, b, i + 1);
    }
}

/// Hash order is a strict total order.
pub proof fn lemma_hash_order(a: [u8; 32], b: [u8; 32], c: [u8; 32])
    ensures
        !hash_lt(a, a),
        hash_lt(a, b) && hash_lt(b, c) ==> hash_lt(a, c),
        a != b ==> hash_lt(a, b) || hash_lt(b, a),
        !(hash_lt(a, b) && hash_lt(b, a)),
{
    broadcast use vstd::array::axiom_array_ext_equal;

    lemma_order_refl(a@, 0);
    lemma_order_antisym(a@, b@, 0);
    if hash_lt(a, b) && hash_lt(b, c) {
        lemma_order_trans(a@, b@, c@, 0);
    }
    if a != b {
        if hash_order(a, b) == 0 {
            lemma_order_zero(a@, b@, 0);
            assert(a@ =~= b@);
            assert(a == b);
        }
    }
}

/// `before` orders every two distinct positions of `s`, one way or the other,
/// and is a strict order on them.
pub open spec fn strict_total_on<T>(s: Seq<T>, before: spec_fn(T, T) -> bool) -> bool {
    &&& forall|i: int, j: int|
        0 <= i < s.len() && 0 <= j < s.len() && i != j ==> before(s[i], s[j]) || before(s[j], s[i])
    &&& forall|i: int| 0 <= i < s.len() ==> !before(#[trigger] s[i], s[i])
    &&& forall|x: T, y: T, z: T|
        #[trigger] before(x, y) && #[trigger] before(y, z) && s.contains(x) && s.contains(y)
            && s.contains(z) ==> before(x, z)
}

/// Strictly increasing under `before`.
pub open spec fn increasing<T>(s: Seq<T>, before: spec_fn(T, T) -> bool) -> bool {
    forall|i: int, j: int| 0 <= i < j < s.len() ==> before(s[i], s[j])
}

proof fn lemma_contains_multiset<T>(s: Seq<T>, t: Seq<T>, x: T)
    requires
        s.to_multiset() == t.to_multiset(),
        s.contains(x),
    ensures
        t.contains(x),
{
    broadcast use vstd::seq_lib::group_to_multiset_ensures;

    assert(s.to_multiset().count(x) > 0);
}

/// Stable insertion keeps an increasing sequence increasing.
proof fn lemma_insert_increasing<T>(r: Seq<T>, x: T, before: spec_fn(T, T) -> bool, all: Seq<T>)
    requires
        increasing(r, before),
        strict_total_on(all, before),
        forall|i: int| 0 <= i < r.len() ==> all.contains(#[trigger] r[i]),
        all.contains(x),
        forall|i: int| 0 <= i < r.len() ==> r[i] != x,
    ensures
        increasing(insert_stable(r, x, before), before),
    decreases r.len(),
{
    broadcast use vstd::seq_lib::group_to_multiset_ensures;

    let res = insert_stable(r, x, before);
    if r.len() == 0 {
    } else if before(x, r.last()) {
        let d = r.drop_last();
        lemma_insert_increasing(d, x, before, all);
        let inner = insert_stable(d, x, before);
        lemma_insert_multiset(d, x, before);
        assert forall|i: int| 0 <= i < inner.len() implies before(#[trigger] inner[i], r.last()) by {
            assert(inner.contains(inner[i]));
            lemma_contains_multiset(inner, d.push(x), inner[i]);
            assert(d.push(x).to_multiset() == d.to_multiset().insert(x));
            let k = choose|k: int| 0 <= k < d.push(x).len() && d.push(x)[k] == inner[i];
            if k < d.len() {
                assert(r[k] == inner[i]);
            }
        }
        assert(increasing(res, before));
    } else {
        let l = r.last();
        assert(l != x);
        let il = choose|i: int| 0 <= i < all.len() && all[i] == l;
        let ix = choose|i: int| 0 <= i < all.len() && all[i] == x;
        assert(before(l, x));
        assert forall|i: int| 0 <= i < r.len() implies before(#[trigger] r[i], x) by {
            if i < r.len() - 1 {
                assert(before(r[i], l));
            }
        }
    }
}

/// A stable sort of a sequence totally and strictly ordered by `before` is increasing.
pub proof fn lemma_sort_increasing<T>(s: Seq<T>, before: spec_fn(T, T) -> bool)
    requires
        strict_total_on(s, before),
    ensures
        increasing(sort_stable(s, before), before),
    decreases s.len(),
{
    broadcast use vstd::seq_lib::group_to_multiset_ensures;

    if s.len() > 0 {
        let d = s.drop_last();
        assert(strict_total_on(d, before)) by {
            assert forall|x: T| d.contains(x) implies s.contains(x) by {
                let k = choose|k: int| 0 <= k < d.len() && d[k] == x;
                assert(s[k] == x);
            }
        }
        lemma_sort_increasing(d, before);
        let r = sort_stable(d, before);
        lemma_sort_multiset(d, before);
        assert forall|i: int| 0 <= i < r.len() implies s.contains(#[trigger] r[i]) by {
            assert(r.contains(r[i]));
            lemma_contains_multiset(r, d, r[i]);
            let k = choose|k: int| 0 <= k < d.len() && d[k] == r[i];
            assert(s[k] == r[i]);
        }
        assert forall|i: int| 0 <= i < r.len() implies r[i] != s.last() by {
            assert(r.contains(r[i]));
            lemma_contains_multiset(r, d, r[i]);
            let k = choose|k: int| 0 <= k < d.len() && d[k] == r[i];
            assert(s[k] == r[i]);
            assert(before(s[k], s.last()) || before(s.last(), s[k]));
        }
        assert(s.contains(s.last())) by {
            assert(s[s.len() - 1] == s.last());
        }
        lemma_insert_increasing(r, s.last(), before, s);
    }
}

/// Two increasing sequences with the same elements are equal.
pub proof fn lemma_increasing_unique<T>(a: Seq<T>, b: Seq<T>, before: spec_fn(T, T) -> bool)
    requires
        increasing(a, before),
        increasing(b, before),
        a.to_multiset() == b.to_multiset(),
        strict_total_on(a, before),
    ensures
        a == b,
    decreases a.len(),
{
    broadcast use vstd::seq_lib::group_to_multiset_ensures;

    assert(a.len() == b.len()) by {
        vstd::seq_lib::to_multiset_len(a);
        vstd::seq_lib::to_multiset_len(b);
    }
    if a.len() > 0 {
        let x = a[0];
        let y = b[0];
        assert(a.contains(x));
        lemma_contains_multiset(a, b, x);
        assert(b.contains(y));
        lemma_contains_multiset(b, a, y);
        let kx = choose|k: int| 0 <= k < b.len() && b[k] == x;
        let ky = choose|k: int| 0 <= k < a.len() && a[k] == y;
        if x != y {
            assert(ky > 0);
            assert(kx > 0);
            assert(before(x, y));
            assert(before(y, x));
            assert(a.contains(x) && a.contains(y));
            assert(before(x, x));
        }
        let a1 = a.drop_first();
        let b1 = b.drop_first();
        assert(a =~= seq![x] + a1);
        assert(b =~= seq![x] + b1);
        assert(a1.to_multiset() == b1.to_multiset()) by {
            assert(a.remove(0) =~= a1);
            assert(b.remove(0) =~= b1);
            vstd::seq_lib::to_multiset_remove(a, 0);
            vstd::seq_lib::to_multiset_remove(b, 0);
        }
        assert(strict_total_on(a1, before)) by {
            assert forall|z: T| a1.contains(z) implies a.contains(z) by {
                let k = choose|k: int| 0 <= k < a1.len() && a1[k] == z;
                assert(a1[k] == a[k + 1]);
            }
        }
        lemma_increasing_unique(a1, b1, before);
    }
}

/// Stable sorts of two arrangements of the same elements, totally and
/// strictly ordered, are equal.
pub proof fn lemma_sort_unique<T>(s1: Seq<T>, s2: Seq<T>, before: spec_fn(T, T) -> bool)
    requires
        s1.to_multiset() == s2.to_multiset(),
        strict_total_on(s1, before),
        strict_total_on(s2, before),
    ensures
        sort_stable(s1, before) == sort_stable(s2, before),
{
    broadcast use vstd::seq_lib::group_to_multiset_ensures;

    lemma_sort_increasing(s1, before);
    lemma_sort_increasing(s2, before);
    lemma_sort_multiset(s1, before);
    lemma_sort_multiset(s2, before);
    let r1 = sort_stable(s1, before);
    assert(strict_total_on(r1, before)) by {
        assert forall|x: T| r1.contains(x) implies s1.contains(x) by {
            lemma_contains_multiset(r1, s1, x);
        }
        assert forall|i: int, j: int|
            0 <= i < r1.len() && 0 <= j < r1.len() && i != j implies before(r1[i], r1[j]) || before(
            r1[j],
            r1[i],
        ) by {
            if i < j {
            } else {
            }
        }
        assert forall|i: int| 0 <= i < r1.len() implies !before(#[trigger] r1[i], r1[i]) by {
            assert(r1.contains(r1[i]));
            lemma_contains_multiset(r1, s1, r1[i]);
            let k = choose|k: int| 0 <= k < s1.len() && s1[k] == r1[i];
        }
    }
    lemma_increasing_unique(r1, sort_stable(s2, before), before);
}

} // verus!
