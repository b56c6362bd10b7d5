//! A stable sort that returns the order instead of moving the items: the
//! result lists the places of the keys so that no key stands behind one that
//! it must come before, and keys that need not be apart keep their order.

use vstd::prelude::*;

verus! {

/// A key by which items are ordered.
pub trait SortKey: Sized {
    /// Whether the key can be compared.
    spec fn comparable(&self) -> bool;

    /// Whether an item with this key must come before one with `other`.
    spec fn before(&self, other: &Self) -> bool;

    /// Decides `before`.
    fn is_before(&self, other: &Self) -> (out: bool)
        requires
            self.comparable(),
            other.comparable(),
        ensures
            out == self.before(other),
    ;
}

/// Where the place `x` goes into `order`: in front of the first place that
/// it must come before, behind everything where there is none. `before` says
/// of two places whether the first must come before the second.
pub open spec fn insertion_point(before: spec_fn(int, int) -> bool, order: Seq<usize>, x: int) -> int
    decreases order.len(),
{
    if order.len() == 0 {
        0
    } else if before(x, order[0] as int) {
        0
    } else {
        1 + insertion_point(before, order.drop_first(), x)
    }
}

/// The stable order of the places `0..n`: that of `0..n - 1`, with the place
/// `n - 1` put in at its insertion point.
pub open spec fn sorted_by(before: spec_fn(int, int) -> bool, n: nat) -> Seq<usize>
    decreases n,
{
    if n == 0 {
        Seq::<usize>::empty()
    } else {
        let earlier = sorted_by(before, (n - 1) as nat);
        earlier.insert(insertion_point(before, earlier, n - 1), (n - 1) as usize)
    }
}

/// The relation that the keys put on their places.
pub open spec fn key_order<K: SortKey>(keys: Seq<K>) -> spec_fn(int, int) -> bool {
    |i: int, j: int| keys[i].before(&keys[j])
}

/// The stable order of all the keys.
pub open spec fn sorted_order<K: SortKey>(keys: Seq<K>) -> Seq<usize> {
    sorted_by(key_order(keys), keys.len())
}

/// The insertion point is the first place that `x` must come before.
pub proof fn lemma_insertion_point(before: spec_fn(int, int) -> bool, order: Seq<usize>, x: int)
    ensures
        0 <= insertion_point(before, order, x) <= order.len(),
        forall|j: int|
            0 <= j < insertion_point(before, order, x) ==> !before(x, (#[trigger] order[j]) as int),
        insertion_point(before, order, x) < order.len() ==> before(
            x,
            order[insertion_point(before, order, x)] as int,
        ),
    decreases order.len(),
{
    if order.len() > 0 && !before(x, order[0] as int) {
        let rest = order.drop_first();
        lemma_insertion_point(before, rest, x);
        let k = insertion_point(before, rest, x);
        assert forall|j: int| 0 <= j < k + 1 implies !before(x, (#[trigger] order[j]) as int) by {
            if j > 0 {
                assert(order[j] == rest[j - 1]);
            }
        }
        if k < rest.len() {
            assert(order[k + 1] == rest[k]);
        }
    }
}

/// A place with these two properties is the insertion point.
pub proof fn lemma_insertion_point_is(
    before: spec_fn(int, int) -> bool,
    order: Seq<usize>,
    x: int,
    k: int,
)
    requires
        0 <= k <= order.len(),
        forall|j: int| 0 <= j < k ==> !before(x, (#[trigger] order[j]) as int),
        k < order.len() ==> before(x, order[k] as int),
    ensures
        insertion_point(before, order, x) == k,
    decreases order.len(),
{
    if k > 0 {
        let rest = order.drop_first();
        assert(!before(x, order[0] as int));
        assert forall|j: int| 0 <= j < k - 1 implies !before(x, (#[trigger] rest[j]) as int) by {
            assert(rest[j] == order[j + 1]);
        }
        if k - 1 < rest.len() {
            assert(rest[k - 1] == order[k]);
        }
        lemma_insertion_point_is(before, rest, x, k - 1);
    }
}

/// The stable order of `0..n` holds each of these places once.
pub proof fn lemma_sorted_places(before: spec_fn(int, int) -> bool, n: nat)
    requires
        n <= usize::MAX,
    ensures
        sorted_by(before, n).len() == n,
        forall|k: int| 0 <= k < n ==> (#[trigger] sorted_by(before, n)[k]) < n,
        forall|k: int, m: int|
            0 <= k < n && 0 <= m < n && k != m ==> (#[trigger] sorted_by(before, n)[k]) != (
            #[trigger] sorted_by(before, n)[m]),
        forall|x: usize| x < n ==> #[trigger] sorted_by(before, n).contains(x),
    decreases n,
{
    if n > 0 {
        let earlier = sorted_by(before, (n - 1) as nat);
        let at = insertion_point(before, earlier, n - 1);
        let now = sorted_by(before, n);
        lemma_sorted_places(before, (n - 1) as nat);
        lemma_insertion_point(before, earlier, n - 1);
        assert forall|k: int| 0 <= k < n implies (#[trigger] now[k]) == (if k < at {
            earlier[k]
        } else if k == at {
            (n - 1) as usize
        } else {
            earlier[k - 1]
        }) by {}
        assert forall|k: int, m: int| 0 <= k < n && 0 <= m < n && k != m implies (#[trigger] now[k])
            != (#[trigger] now[m]) by {
            let a = if k < at { k } else { k - 1 };
            let b = if m < at { m } else { m - 1 };
            if k != at && m != at {
                assert(earlier[a] != earlier[b]);
            } else if k != at {
                assert(earlier[a] < n - 1);
            } else {
                assert(earlier[b] < n - 1);
            }
        }
        assert forall|x: usize| x < n implies #[trigger] now.contains(x) by {
            if x == n - 1 {
                assert(now[at] == x);
            } else {
                assert(earlier.contains(x));
                let k = choose|k: int| 0 <= k < earlier.len() && earlier[k] == x;
                let to = if k < at { k } else { k + 1 };
                assert(now[to] == x);
            }
        }
    }
}

/// Items read through the stable order of their first `n` places are those
/// first `n` items, each as often as before.
pub proof fn lemma_sorted_by_rearranges<T>(before: spec_fn(int, int) -> bool, items: Seq<T>, n: nat)
    requires
        n <= items.len(),
        n <= usize::MAX,
    ensures
        Seq::new(n, |k: int| items[sorted_by(before, n)[k] as int]).to_multiset() == items.take(
            n as int,
        ).to_multiset(),
    decreases n,
{
    let now = Seq::new(n, |k: int| items[sorted_by(before, n)[k] as int]);
    if n == 0 {
        assert(now =~= items.take(0));
    } else {
        let m = (n - 1) as nat;
        let earlier = sorted_by(before, m);
        let read = Seq::new(m, |k: int| items[earlier[k] as int]);
        let at = insertion_point(before, earlier, n - 1);
        lemma_sorted_by_rearranges(before, items, m);
        lemma_sorted_places(before, m);
        lemma_sorted_places(before, n);
        lemma_insertion_point(before, earlier, n - 1);
        assert(now =~= read.insert(at, items[n - 1]));
        assert(items.take(n as int) =~= items.take(m as int).push(items[n - 1]));
        vstd::seq_lib::to_multiset_insert(read, at, items[n - 1]);
        vstd::seq_lib::to_multiset_build(items.take(m as int), items[n - 1]);
    }
}

/// Two relations that agree on the places under `bound` give `x` the same
/// insertion point into an order of such places.
pub proof fn lemma_insertion_point_agrees(
    first: spec_fn(int, int) -> bool,
    second: spec_fn(int, int) -> bool,
    order: Seq<usize>,
    x: int,
    bound: int,
)
    requires
        0 <= x < bound,
        forall|k: int| 0 <= k < order.len() ==> (#[trigger] order[k]) < bound,
        forall|i: int, j: int|
            0 <= i < bound && 0 <= j < bound ==> #[trigger] first(i, j) == second(i, j),
    ensures
        insertion_point(first, order, x) == insertion_point(second, order, x),
    decreases order.len(),
{
    if order.len() > 0 {
        assert(order[0] < bound);
        let rest = order.drop_first();
        assert forall|k: int| 0 <= k < rest.len() implies (#[trigger] rest[k]) < bound by {
            assert(rest[k] == order[k + 1]);
        }
        lemma_insertion_point_agrees(first, second, rest, x, bound);
    }
}

/// Two relations that agree on the places `0..n` give the same stable order.
pub proof fn lemma_sorted_by_agrees(
    first: spec_fn(int, int) -> bool,
    second: spec_fn(int, int) -> bool,
    n: nat,
)
    requires
        n <= usize::MAX,
        forall|i: int, j: int| 0 <= i < n && 0 <= j < n ==> #[trigger] first(i, j) == second(i, j),
    ensures
        sorted_by(first, n) == sorted_by(second, n),
    decreases n,
{
    if n > 0 {
        lemma_sorted_by_agrees(first, second, (n - 1) as nat);
        lemma_sorted_places(first, (n - 1) as nat);
        let earlier = sorted_by(first, (n - 1) as nat);
        assert forall|k: int| 0 <= k < earlier.len() implies (#[trigger] earlier[k]) < n by {}
        lemma_insertion_point_agrees(first, second, earlier, n - 1, n as int);
    }
}

/// Where nothing must come before anything, every place stays where it is.
pub proof fn lemma_sorted_by_nothing(before: spec_fn(int, int) -> bool, n: nat)
    requires
        n <= usize::MAX,
        forall|i: int, j: int| 0 <= i < n && 0 <= j < n ==> !#[trigger] before(i, j),
    ensures
        sorted_by(before, n) == Seq::new(n, |k: int| k as usize),
    decreases n,
{
    if n > 0 {
        lemma_sorted_by_nothing(before, (n - 1) as nat);
        let earlier = sorted_by(before, (n - 1) as nat);
        lemma_insertion_point_is(before, earlier, n - 1, n - 1);
        assert(sorted_by(before, n) =~= Seq::new(n, |k: int| k as usize));
    } else {
        assert(sorted_by(before, n) =~= Seq::new(n, |k: int| k as usize));
    }
}

/// Where the relation never holds both ways and passes along chains, the
/// stable order is sorted: no place stands behind one that it must come
/// before.
pub proof fn lemma_sorted_by_is_sorted(before: spec_fn(int, int) -> bool, n: nat)
    requires
        n <= usize::MAX,
        forall|i: int, j: int|
            0 <= i < n && 0 <= j < n && #[trigger] before(i, j) ==> !before(j, i),
        forall|i: int, j: int, k: int|
            0 <= i < n && 0 <= j < n && 0 <= k < n && #[trigger] before(i, j) && #[trigger] before(
                j,
                k,
            ) ==> before(i, k),
    ensures
        forall|a: int, b: int|
            0 <= a < b < n ==> !before(
                (#[trigger] sorted_by(before, n)[b]) as int,
                (#[trigger] sorted_by(before, n)[a]) as int,
            ),
    decreases n,
{
    if n > 0 {
        let earlier = sorted_by(before, (n - 1) as nat);
        let now = sorted_by(before, n);
        let x = n - 1;
        let at = insertion_point(before, earlier, x);
        lemma_sorted_by_is_sorted(before, (n - 1) as nat);
        lemma_sorted_places(before, (n - 1) as nat);
        lemma_insertion_point(before, earlier, x);
        assert forall|a: int, b: int| 0 <= a < b < n implies !before(
            (#[trigger] now[b]) as int,
            (#[trigger] now[a]) as int,
        ) by {
            let from_a = if a < at { a } else { a - 1 };
            let from_b = if b < at { b } else { b - 1 };
            if a != at && b != at {
                assert(now[a] == earlier[from_a]);
                assert(now[b] == earlier[from_b]);
                assert(!before(earlier[from_b] as int, earlier[from_a] as int));
            } else if b == at {
                assert(now[b] == x);
                assert(now[a] == earlier[a]);
                assert(!before(x, earlier[a] as int));
            } else {
                assert(now[a] == x);
                assert(now[b] == earlier[b - 1]);
                let y = earlier[b - 1] as int;
                let z = earlier[at] as int;
                assert(before(x, z));
                if before(y, x) {
                    assert(before(y, z));
                    if b - 1 > at {
                        assert(!before(earlier[b - 1] as int, earlier[at] as int));
                    } else {
                        assert(y == z);
                        assert(!before(z, x));
                    }
                }
            }
        }
    }
}

/// Where the relation never holds both ways and passes along chains, no
/// place must come before the one that the stable order puts first.
pub proof fn lemma_first_is_foremost(before: spec_fn(int, int) -> bool, n: nat)
    requires
        0 < n <= usize::MAX,
        forall|i: int, j: int|
            0 <= i < n && 0 <= j < n && #[trigger] before(i, j) ==> !before(j, i),
        forall|i: int, j: int, k: int|
            0 <= i < n && 0 <= j < n && 0 <= k < n && #[trigger] before(i, j) && #[trigger] before(
                j,
                k,
            ) ==> before(i, k),
    ensures
        forall|j: int| 0 <= j < n ==> !#[trigger] before(j, sorted_by(before, n)[0] as int),
    decreases n,
{
    let earlier = sorted_by(before, (n - 1) as nat);
    let now = sorted_by(before, n);
    let x = n - 1;
    lemma_sorted_places(before, (n - 1) as nat);
    lemma_sorted_places(before, n);
    lemma_insertion_point(before, earlier, x);
    if n == 1 {
        assert(now[0] == 0);
        assert(!before(0, 0)) by {
            if before(0, 0) {
                assert(!before(0, 0));
            }
        }
    } else {
        lemma_first_is_foremost(before, (n - 1) as nat);
        let first = earlier[0] as int;
        if insertion_point(before, earlier, x) == 0 {
            assert(now[0] == x);
            assert(before(x, first));
            assert forall|j: int| 0 <= j < n implies !#[trigger] before(j, x) by {
                if before(j, x) {
                    if j == x {
                        assert(!before(x, x));
                    } else {
                        assert(before(j, first));
                        assert(!before(j, first));
                    }
                }
            }
        } else {
            assert(now[0] == earlier[0]);
            assert(!before(x, earlier[0] as int));
        }
    }
}

/// The stable order of the keys.
pub fn stable_order<K: SortKey>(keys: &Vec<K>) -> (order: Vec<usize>)
    requires
        forall|i: int| 0 <= i < keys@.len() ==> (#[trigger] keys@[i]).comparable(),
    ensures
        order@ == sorted_order(keys@),
        order@.len() == keys@.len(),
        forall|k: int| 0 <= k < order@.len() ==> (#[trigger] order@[k]) < keys@.len(),
{
    let ghost before = key_order(keys@);
    let mut order: Vec<usize> = Vec::new();
    let mut n: usize = 0;
    while n < keys.len()
        invariant
            n <= keys.len(),
            before == key_order(keys@),
            order@ == sorted_by(before, n as nat),
            order@.len() == n,
            forall|k: int| 0 <= k < n ==> (#[trigger] order@[k]) < n,
            forall|i: int| 0 <= i < keys@.len() ==> (#[trigger] keys@[i]).comparable(),
        decreases keys.len() - n,
    {
        let mut at: usize = 0;
        while at < order.len() && !keys[n].is_before(&keys[order[at]])
            invariant
                at <= order.len(),
                n < keys.len(),
                before == key_order(keys@),
                order@.len() == n,
                forall|k: int| 0 <= k < n ==> (#[trigger] order@[k]) < n,
                forall|i: int| 0 <= i < keys@.len() ==> (#[trigger] keys@[i]).comparable(),
                forall|j: int| 0 <= j < at ==> !before(n as int, (#[trigger] order@[j]) as int),
            decreases order.len() - at,
        {
            at = at + 1;
        }
        proof {
            lemma_insertion_point_is(before, order@, n as int, at as int);
            lemma_sorted_places(before, (n + 1) as nat);
        }
        order.insert(at, n);
        n = n + 1;
    }
    order
}

} // verus!
