//! Stable sorting by a key, and the order of texts.

use vstd::prelude::*;
use vstd::relations::{sorted_by, total_ordering};
use vstd::seq_lib::{
    group_to_multiset_ensures, lemma_sorted_unique, to_multiset_insert, to_multiset_len,
};

verus! {

/// `a` comes before `b`: the first character that differs decides, and a text
/// comes before its extensions.
pub open spec fn text_before(a: Seq<char>, b: Seq<char>) -> bool
    decreases a.len(),
{
    if b.len() == 0 {
        false
    } else if a.len() == 0 {
        true
    } else if a[0] == b[0] {
        text_before(a.drop_first(), b.drop_first())
    } else {
        a[0] < b[0]
    }
}

/// No element comes before itself, and "does not come after" can be chained.
pub open spec fn strict_weak<M>(before: spec_fn(M, M) -> bool) -> bool {
    &&& forall|a: M, b: M| #[trigger] before(a, b) ==> !before(b, a)
    &&& forall|a: M, b: M, c: M|
        !(#[trigger] before(a, b)) && !(#[trigger] before(b, c)) ==> !before(a, c)
}

/// The index `i` is listed no later than `j` in a stable sort of `keys`.
pub open spec fn index_leq<M>(keys: Seq<M>, before: spec_fn(M, M) -> bool) -> spec_fn(
    int,
    int,
) -> bool {
    |i: int, j: int|
        before(keys[i], keys[j]) || (!before(keys[j], keys[i]) && i <= j)
}

/// The numbers below `n`.
pub open spec fn indices(n: nat) -> Seq<int> {
    Seq::new(n, |i: int| i)
}

/// The indices of `keys`, sorted by their keys; equal keys keep their order.
pub open spec fn sorted_indices<M>(keys: Seq<M>, before: spec_fn(M, M) -> bool) -> Seq<int> {
    indices(keys.len()).sort_by(index_leq(keys, before))
}

/// The elements of `v` at the given positions.
pub open spec fn picked<T>(v: Seq<T>, at: Seq<int>) -> Seq<T> {
    at.map_values(|i: int| v[i])
}

/// A key to sort by.
pub trait SortKey: Sized {
    type M;

    /// What the key stands for.
    spec fn model(self) -> Self::M;

    /// The order of what the keys stand for.
    spec fn order() -> spec_fn(Self::M, Self::M) -> bool;

    proof fn order_is_strict_weak()
        ensures
            strict_weak(Self::order()),
    ;

    /// Whether this key comes before `other`.
    fn precedes(&self, other: &Self) -> (r: bool)
        ensures
            r == Self::order()(self.model(), other.model()),
    ;
}

/// What a list of keys stands for.
pub open spec fn models<K: SortKey>(keys: Seq<K>) -> Seq<K::M> {
    keys.map_values(|k: K| k.model())
}

proof fn lemma_text_before(a: Seq<char>, b: Seq<char>)
    ensures
        text_before(a, b) ==> !text_before(b, a),
    decreases a.len(),
{
    if a.len() > 0 && b.len() > 0 && a[0] == b[0] {
        lemma_text_before(a.drop_first(), b.drop_first());
    }
}

proof fn lemma_text_chain(a: Seq<char>, b: Seq<char>, c: Seq<char>)
    requires
        !text_before(a, b),
        !text_before(b, c),
    ensures
        !text_before(a, c),
    decreases a.len(),
{
    if a.len() > 0 && b.len() > 0 && c.len() > 0 && a[0] == b[0] && b[0] == c[0] {
        lemma_text_chain(a.drop_first(), b.drop_first(), c.drop_first());
    }
}

/// Texts that come neither before nor after each other are equal.
pub proof fn texts_are_ordered(a: Seq<char>, b: Seq<char>)
    ensures
        text_before(a, b) || text_before(b, a) || a == b,
    decreases a.len(),
{
    if a.len() > 0 && b.len() > 0 {
        if a[0] == b[0] {
            texts_are_ordered(a.drop_first(), b.drop_first());
            if a.drop_first() == b.drop_first() {
                assert(a =~= seq![a[0]] + a.drop_first());
                assert(b =~= seq![b[0]] + b.drop_first());
            }
        }
    } else if a.len() == 0 && b.len() == 0 {
        assert(a =~= b);
    }
}

impl SortKey for String {
    type M = Seq<char>;

    open spec fn model(self) -> Seq<char> {
        self@
    }

    open spec fn order() -> spec_fn(Seq<char>, Seq<char>) -> bool {
        |a: Seq<char>, b: Seq<char>| text_before(a, b)
    }

    proof fn order_is_strict_weak() {
        let o = Self::order();
        assert forall|a: Seq<char>, b: Seq<char>| #[trigger] o(a, b) implies !o(b, a) by {
            lemma_text_before(a, b);
        }
        assert forall|a: Seq<char>, b: Seq<char>, c: Seq<char>|
            !(#[trigger] o(a, b)) && !(#[trigger] o(b, c)) implies !o(a, c) by {
            lemma_text_chain(a, b, c);
        }
    }

    fn precedes(&self, other: &Self) -> (r: bool) {
        let a = crate::text::to_chars(self.as_str());
        let b = crate::text::to_chars(other.as_str());
        let mut i: usize = 0;
        assert(a@.skip(0) =~= a@);
        assert(b@.skip(0) =~= b@);
        while i < a.len() && i < b.len() && a[i] == b[i]
            invariant
                i <= a@.len(),
                i <= b@.len(),
                text_before(a@, b@) == text_before(a@.skip(i as int), b@.skip(i as int)),
            decreases a@.len() - i,
        {
            assert(a@.skip(i as int).drop_first() =~= a@.skip(i + 1));
            assert(b@.skip(i as int).drop_first() =~= b@.skip(i + 1));
            i = i + 1;
        }
        if i >= b.len() {
            false
        } else if i >= a.len() {
            true
        } else {
            a[i] < b[i]
        }
    }
}

impl SortKey for i128 {
    type M = int;

    open spec fn model(self) -> int {
        self as int
    }

    open spec fn order() -> spec_fn(int, int) -> bool {
        |a: int, b: int| a < b
    }

    proof fn order_is_strict_weak() {
    }

    fn precedes(&self, other: &Self) -> (r: bool) {
        *self < *other
    }
}

proof fn lemma_index_order<M>(keys: Seq<M>, before: spec_fn(M, M) -> bool)
    requires
        strict_weak(before),
    ensures
        total_ordering(index_leq(keys, before)),
{
    let leq = index_leq(keys, before);
    assert forall|x: int, y: int, z: int| #[trigger]
        leq(x, y) && #[trigger] leq(y, z) implies leq(x, z) by {
        let (a, b, c) = (keys[x], keys[y], keys[z]);
        assert(!before(b, a) && !before(c, b));
        assert(!before(c, a));
        if !before(a, c) {
            if before(a, b) {
                assert(!before(a, c) && !before(c, b));
                assert(false);
            }
            if before(b, c) {
                assert(!before(b, a) && !before(a, c));
                assert(false);
            }
        }
    }
}

/// A stable sort lists every index once.
pub proof fn sorted_indices_are_a_permutation<M>(keys: Seq<M>, before: spec_fn(M, M) -> bool)
    requires
        strict_weak(before),
    ensures
        sorted_indices(keys, before).len() == keys.len(),
        sorted_indices(keys, before).to_multiset() == indices(keys.len()).to_multiset(),
        forall|k: int|
            0 <= k < keys.len() ==> 0 <= #[trigger] sorted_indices(keys, before)[k] < keys.len(),
        forall|i: int|
            0 <= i < keys.len() ==> #[trigger] sorted_indices(keys, before).contains(i),
        sorted_by(sorted_indices(keys, before), index_leq(keys, before)),
{
    lemma_index_order(keys, before);
    let n = indices(keys.len());
    let s = sorted_indices(keys, before);
    n.lemma_sort_by_ensures(index_leq(keys, before));
    broadcast use group_to_multiset_ensures;

    to_multiset_len(n);
    to_multiset_len(s);
    assert forall|k: int| 0 <= k < keys.len() implies 0 <= #[trigger] s[k] < keys.len() by {
        assert(s.contains(s[k]));
        assert(n.contains(s[k]));
    }
    assert forall|i: int| 0 <= i < keys.len() implies #[trigger] s.contains(i) by {
        assert(n[i] == i);
        assert(n.contains(i));
        assert(n.to_multiset().count(i) > 0);
    }
}

/// The elements of `v`, sorted by `keys`; elements with equal keys keep their
/// order.
pub fn sort_by_keys<T, K: SortKey>(v: Vec<T>, keys: Vec<K>) -> (r: Vec<T>)
    requires
        v@.len() == keys@.len(),
    ensures
        r@ == picked(v@, sorted_indices(models(keys@), K::order())),
        r@.len() == v@.len(),
{
    let ghost v0 = v@;
    let ghost ks = models(keys@);
    let ghost n = ks.len();
    let ghost leq = index_leq(ks, K::order());
    proof {
        K::order_is_strict_weak();
        lemma_index_order(ks, K::order());
    }
    let mut v = v;
    let mut keys = keys;
    let mut out: Vec<T> = Vec::new();
    let mut out_keys: Vec<K> = Vec::new();
    let ghost mut ord: Seq<int> = Seq::empty();
    assert(indices(n).skip(n as int) =~= ord);
    assert(v0.take(n as int) =~= v0);
    while v.len() > 0
        invariant
            ks.len() == n == v0.len(),
            v@.len() == keys@.len() <= n,
            v@ == v0.take(v@.len() as int),
            forall|i: int| 0 <= i < keys@.len() ==> #[trigger] keys@[i].model() == ks[i],
            out@.len() == out_keys@.len() == ord.len(),
            forall|p: int|
                0 <= p < ord.len() ==> v@.len() <= #[trigger] ord[p] < n && out@[p] == v0[ord[p]]
                    && out_keys@[p].model() == ks[ord[p]],
            leq == index_leq(ks, K::order()),
            total_ordering(leq),
            sorted_by(ord, leq),
            ord.to_multiset() == indices(n).skip(v@.len() as int).to_multiset(),
        decreases v@.len(),
    {
        let item = v.pop().unwrap();
        let ghost i = v@.len() as int;
        assert(v@ =~= v0.take(i));
        assert(item == v0[i]);
        let key = keys.pop().unwrap();
        assert(key.model() == ks[i]);
        let mut pos: usize = 0;
        while pos < out_keys.len() && out_keys[pos].precedes(&key)
            invariant
                pos <= out_keys@.len() == ord.len(),
                key.model() == ks[i],
                forall|p: int| 0 <= p < ord.len() ==> out_keys@[p].model() == ks[#[trigger] ord[p]],
                forall|p: int| 0 <= p < pos ==> K::order()(ks[#[trigger] ord[p]], ks[i]),
            decreases out_keys@.len() - pos,
        {
            assert(K::order()(ks[ord[pos as int]], ks[i]));
            pos = pos + 1;
        }
        proof {
            let o2 = ord.insert(pos as int, i);
            assert forall|p: int| pos <= p < ord.len() implies #[trigger] leq(i, ord[p]) by {
                assert(leq(i, ord[pos as int]));
                assert(leq(ord[pos as int], ord[p]));
            }
            assert forall|p: int| 0 <= p < pos implies #[trigger] leq(ord[p], i) by {}
            assert forall|a: int, b: int| 0 <= a < b < o2.len() implies #[trigger] leq(
                o2[a],
                o2[b],
            ) by {
                let oa = if a < pos { a } else { a - 1 };
                let ob = if b < pos { b } else { b - 1 };
                if a == pos {
                    assert(leq(i, ord[ob]));
                } else if b == pos {
                    assert(leq(ord[oa], i));
                } else {
                    assert(leq(ord[oa], ord[ob]));
                }
            }
            to_multiset_insert(ord, pos as int, i);
            let rest = indices(n).skip(i + 1);
            assert(indices(n).skip(i) =~= rest.insert(0, i));
            to_multiset_insert(rest, 0, i);
        }
        let ghost ord0 = ord;
        out.insert(pos, item);
        out_keys.insert(pos, key);
        proof {
            ord = ord.insert(pos as int, i);
            assert forall|p: int| 0 <= p < ord.len() implies v@.len() <= #[trigger] ord[p] < n
                && out@[p] == v0[ord[p]] && out_keys@[p].model() == ks[ord[p]] by {
                if p < pos {
                    assert(ord[p] == ord0[p]);
                } else if p > pos {
                    assert(ord[p] == ord0[p - 1]);
                }
            }
        }
    }
    proof {
        assert(indices(n).skip(0) =~= indices(n));
        indices(n).lemma_sort_by_ensures(leq);
        lemma_sorted_unique(ord, sorted_indices(ks, K::order()), leq);
        assert(out@ =~= picked(v0, ord));
        to_multiset_len(ord);
        to_multiset_len(indices(n));
    }
    out
}

/// `v` with the elements at `i` and `j` exchanged.
pub open spec fn swapped<T>(v: Seq<T>, i: int, j: int) -> Seq<T> {
    v.update(i, v[j]).update(j, v[i])
}

/// Exchange two elements.
pub fn swap<T>(v: &mut Vec<T>, i: usize, j: usize)
    requires
        i < old(v)@.len(),
        j < old(v)@.len(),
    ensures
        final(v)@ == swapped(old(v)@, i as int, j as int),
{
    if i == j {
        return;
    }
    let (a, b) = if i < j {
        (i, j)
    } else {
        (j, i)
    };
    let y = v.remove(b);
    let x = v.remove(a);
    v.insert(a, y);
    v.insert(b, x);
    assert(v@ =~= swapped(old(v)@, i as int, j as int));
}

/// One text comes before another where they first differ: it ends there, or its
/// character there is the smaller one.
pub open spec fn differs_below(a: Seq<char>, b: Seq<char>, at: int) -> bool {
    &&& 0 <= at <= a.len()
    &&& at < b.len()
    &&& a.take(at) == b.take(at)
    &&& at == a.len() || a[at] < b[at]
}

/// A text comes before another exactly if it is smaller at the first place where
/// they differ.
pub proof fn first_difference_decides(a: Seq<char>, b: Seq<char>)
    ensures
        text_before(a, b) <==> exists|at: int| differs_below(a, b, at),
    decreases a.len(),
{
    if b.len() > 0 && a.len() > 0 && a[0] == b[0] {
        let (x, y) = (a.drop_first(), b.drop_first());
        first_difference_decides(x, y);
        if text_before(a, b) {
            let at = choose|at: int| differs_below(x, y, at);
            assert(a.take(at + 1) =~= seq![a[0]] + x.take(at));
            assert(b.take(at + 1) =~= seq![b[0]] + y.take(at));
            assert(differs_below(a, b, at + 1));
        }
        if exists|at: int| differs_below(a, b, at) {
            let at = choose|at: int| differs_below(a, b, at);
            assert(at > 0);
            assert(x.take(at - 1) =~= a.take(at).skip(1));
            assert(y.take(at - 1) =~= b.take(at).skip(1));
            assert(differs_below(x, y, at - 1));
        }
    } else if b.len() > 0 {
        if text_before(a, b) {
            assert(a.take(0) =~= b.take(0));
            assert(differs_below(a, b, 0));
        }
        if exists|at: int| differs_below(a, b, at) {
            let at = choose|at: int| differs_below(a, b, at);
            if at > 0 {
                assert(a.take(at)[0] == a[0] && b.take(at)[0] == b[0]);
            }
        }
    }
}

/// Sorting gives every element once, none after one that it comes before, and
/// keeps elements with equal keys in their order.
pub proof fn sorting_rearranges<T, M>(v: Seq<T>, keys: Seq<M>, before: spec_fn(M, M) -> bool)
    requires
        v.len() == keys.len(),
        strict_weak(before),
    ensures
        ({
            let at = sorted_indices(keys, before);
            let r = picked(v, at);
            &&& r.len() == v.len()
            &&& r.to_multiset() == v.to_multiset()
            &&& forall|i: int| 0 <= i < r.len() ==> 0 <= #[trigger] at[i] < v.len() && r[i] == v[at[i]]
            &&& forall|i: int, j: int|
                #![trigger at[i], at[j]]
                0 <= i < j < r.len() ==> at[i] != at[j] && !before(keys[at[j]], keys[at[i]]) && (
                before(keys[at[i]], keys[at[j]]) || at[i] < at[j])
        }),
{
    sorted_indices_are_a_permutation(keys, before);
    let at = sorted_indices(keys, before);
    let n = indices(keys.len());
    lemma_picked_multiset(v, at, n);
    assert(picked(v, n) =~= v);
    broadcast use group_to_multiset_ensures;

    assert(n.no_duplicates());
    n.lemma_multiset_has_no_duplicates();
    assert(at.no_duplicates()) by {
        at.lemma_multiset_has_no_duplicates_conv();
    }
    let leq = index_leq(keys, before);
    assert forall|i: int, j: int|
        #![trigger at[i], at[j]]
        0 <= i < j < at.len() implies at[i] != at[j] && !before(keys[at[j]], keys[at[i]]) && (before(
        keys[at[i]],
        keys[at[j]],
    ) || at[i] < at[j]) by {
        assert(leq(at[i], at[j]));
    }
}

proof fn lemma_picked_multiset<T>(v: Seq<T>, a: Seq<int>, b: Seq<int>)
    requires
        a.to_multiset() == b.to_multiset(),
    ensures
        picked(v, a).to_multiset() == picked(v, b).to_multiset(),
    decreases a.len(),
{
    broadcast use group_to_multiset_ensures;

    to_multiset_len(a);
    to_multiset_len(b);
    if a.len() == 0 {
        assert(picked(v, a) =~= picked(v, b));
    } else {
        let x = a.last();
        assert(a.to_multiset().count(x) > 0) by {
            assert(a.contains(x));
        }
        assert(b.contains(x));
        let k = choose|k: int| 0 <= k < b.len() && b[k] == x;
        let (a1, b1) = (a.drop_last(), b.remove(k));
        assert(a =~= a1.push(x));
        assert(a1.to_multiset().insert(x) == a.to_multiset());
        assert(b.to_multiset().remove(x) == b1.to_multiset());
        assert(a1.to_multiset() =~= a.to_multiset().remove(x));
        lemma_picked_multiset(v, a1, b1);
        assert(picked(v, a) =~= picked(v, a1).push(v[x]));
        assert(picked(v, b1) =~= picked(v, b).remove(k));
        assert(picked(v, b)[k] == v[x]);
        assert(picked(v, b).to_multiset() =~= picked(v, b1).to_multiset().insert(v[x]));
    }
}

} // verus!
