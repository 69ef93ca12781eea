//! Stable sorting, by the places of the items.

use vstd::prelude::*;

verus! {

/// Values with an order in which some of them may be equal.
pub trait Ranked: Sized {
    /// This value comes before the other.
    spec fn before(self, other: Self) -> bool;

    /// Nothing comes before itself.
    proof fn irreflexive(a: Self)
        ensures
            !a.before(a),
    ;

    /// What comes before something that comes before a third value comes before it too.
    proof fn transitive(a: Self, b: Self, c: Self)
        requires
            a.before(b),
            b.before(c),
        ensures
            a.before(c),
    ;

    /// Of two values in order, a third comes after the first or before the second.
    proof fn separating(a: Self, b: Self, c: Self)
        requires
            a.before(c),
        ensures
            a.before(b) || b.before(c),
    ;

    /// Whether this value comes before the other.
    fn comes_before(&self, other: &Self) -> (r: bool)
        ensures
            r == self.before(*other),
    ;
}

/// The item at place `i` comes before that at place `j`, or is equal to it and
/// stands to its left.
pub open spec fn precedes<T: Ranked>(items: Seq<T>, i: int, j: int) -> bool {
    items[i].before(items[j]) || (!items[j].before(items[i]) && i < j)
}

/// The places from `from` up to `to`, each once, in the order of their items.
pub open spec fn orders_range<T: Ranked>(
    items: Seq<T>,
    places: Seq<usize>,
    from: int,
    to: int,
) -> bool {
    &&& places.len() == to - from
    &&& forall|i: int| 0 <= i < places.len() ==> from <= #[trigger] places[i] < to
    &&& forall|k: int| from <= k < to ==> #[trigger] places.contains(k as usize)
    &&& forall|i: int, j: int|
        0 <= i < j < places.len() ==> precedes(
            items,
            #[trigger] places[i] as int,
            #[trigger] places[j] as int,
        )
}

/// All places, each once, in the order of their items; equal items keep their order.
pub open spec fn orders<T: Ranked>(items: Seq<T>, places: Seq<usize>) -> bool {
    orders_range(items, places, 0, items.len() as int)
}

proof fn lemma_precedes_transitive<T: Ranked>(items: Seq<T>, i: int, j: int, k: int)
    requires
        precedes(items, i, j),
        precedes(items, j, k),
    ensures
        precedes(items, i, k),
{
    let a = items[i];
    let b = items[j];
    let c = items[k];
    if a.before(b) {
        T::separating(a, c, b);
        if c.before(b) {
            if b.before(c) {
                T::transitive(b, c, b);
                T::irreflexive(b);
            }
        }
    } else if b.before(c) {
        T::separating(b, a, c);
    } else if c.before(a) {
        T::separating(c, b, a);
    }
}

/// Whatever is first precedes the rest of its own places and of the others.
proof fn lemma_head_precedes<T: Ranked>(
    items: Seq<T>,
    places: Seq<usize>,
    from: int,
    first: usize,
    i: int,
)
    requires
        0 <= from < places.len(),
        from <= i < places.len(),
        forall|x: int, y: int|
            0 <= x < y < places.len() ==> precedes(
                items,
                #[trigger] places[x] as int,
                #[trigger] places[y] as int,
            ),
        precedes(items, first as int, places[from] as int),
    ensures
        precedes(items, first as int, places[i] as int),
{
    if i > from {
        lemma_precedes_transitive(items, first as int, places[from] as int, places[i] as int);
    }
}

/// Puts two ordered runs of places together.
fn merge<T: Ranked>(
    items: &Vec<T>,
    left: Vec<usize>,
    right: Vec<usize>,
    from: usize,
    middle: usize,
    to: usize,
) -> (r: Vec<usize>)
    requires
        from <= middle <= to <= items@.len(),
        orders_range(items@, left@, from as int, middle as int),
        orders_range(items@, right@, middle as int, to as int),
    ensures
        orders_range(items@, r@, from as int, to as int),
{
    let mut out: Vec<usize> = Vec::new();
    let mut i: usize = 0;
    let mut j: usize = 0;
    while i < left.len() || j < right.len()
        invariant
            from <= middle <= to <= items@.len(),
            orders_range(items@, left@, from as int, middle as int),
            orders_range(items@, right@, middle as int, to as int),
            i <= left@.len(),
            j <= right@.len(),
            out@.len() == i + j,
            forall|x: int| 0 <= x < out@.len() ==> from <= #[trigger] out@[x] < to,
            forall|x: int| 0 <= x < i ==> out@.contains(#[trigger] left@[x]),
            forall|y: int| 0 <= y < j ==> out@.contains(#[trigger] right@[y]),
            forall|x: int, y: int|
                0 <= x < y < out@.len() ==> precedes(
                    items@,
                    #[trigger] out@[x] as int,
                    #[trigger] out@[y] as int,
                ),
            forall|x: int, y: int|
                0 <= x < out@.len() && i <= y < left@.len() ==> precedes(
                    items@,
                    #[trigger] out@[x] as int,
                    #[trigger] left@[y] as int,
                ),
            forall|x: int, y: int|
                0 <= x < out@.len() && j <= y < right@.len() ==> precedes(
                    items@,
                    #[trigger] out@[x] as int,
                    #[trigger] right@[y] as int,
                ),
        decreases left@.len() - i + right@.len() - j,
    {
        let take_left = if i == left.len() {
            false
        } else if j == right.len() {
            true
        } else {
            !items[right[j]].comes_before(&items[left[i]])
        };
        let ghost before = out@;
        if take_left {
            let place: usize = left[i];
            out.push(place);
            proof {
                assert(out@[before.len() as int] == place);
                assert(forall|p: usize| before.contains(p) ==> out@.contains(p)) by {
                    assert forall|p: usize| before.contains(p) implies out@.contains(p) by {
                        let x = choose|x: int| 0 <= x < before.len() && before[x] == p;
                        assert(out@[x] == p);
                    }
                }
                if j < right@.len() {
                    assert(precedes(items@, place as int, right@[j as int] as int));
                    assert forall|y: int| j <= y < right@.len() implies precedes(
                        items@,
                        place as int,
                        #[trigger] right@[y] as int,
                    ) by {
                        lemma_head_precedes(items@, right@, j as int, place, y);
                    }
                }
            }
            i = i + 1;
        } else {
            let place: usize = right[j];
            out.push(place);
            proof {
                assert(out@[before.len() as int] == place);
                assert(forall|p: usize| before.contains(p) ==> out@.contains(p)) by {
                    assert forall|p: usize| before.contains(p) implies out@.contains(p) by {
                        let x = choose|x: int| 0 <= x < before.len() && before[x] == p;
                        assert(out@[x] == p);
                    }
                }
                if i < left@.len() {
                    assert(precedes(items@, place as int, left@[i as int] as int));
                    assert forall|y: int| i <= y < left@.len() implies precedes(
                        items@,
                        place as int,
                        #[trigger] left@[y] as int,
                    ) by {
                        lemma_head_precedes(items@, left@, i as int, place, y);
                    }
                }
            }
            j = j + 1;
        }
    }
    proof {
        assert forall|k: int| from <= k < to implies #[trigger] out@.contains(k as usize) by {
            if k < middle {
                assert(left@.contains(k as usize));
                let x = choose|x: int| 0 <= x < left@.len() && left@[x] == k as usize;
                assert(out@.contains(left@[x]));
            } else {
                assert(right@.contains(k as usize));
                let y = choose|y: int| 0 <= y < right@.len() && right@[y] == k as usize;
                assert(out@.contains(right@[y]));
            }
        }
    }
    out
}

/// The places from `from` up to `to` in the order of their items.
fn sorted_range<T: Ranked>(items: &Vec<T>, from: usize, to: usize) -> (r: Vec<usize>)
    requires
        from <= to <= items@.len(),
    ensures
        orders_range(items@, r@, from as int, to as int),
    decreases to - from,
{
    if to - from == 0 {
        return Vec::new();
    }
    if to - from == 1 {
        let mut one: Vec<usize> = Vec::new();
        one.push(from);
        proof {
            assert forall|k: int| from <= k < to implies #[trigger] one@.contains(k as usize) by {
                assert(one@[0] == k as usize);
            }
        }
        return one;
    }
    let middle: usize = from + (to - from) / 2;
    let left = sorted_range(items, from, middle);
    let right = sorted_range(items, middle, to);
    merge(items, left, right, from, middle, to)
}

/// The places of the items in order; equal items keep their order.
pub fn sorted_places<T: Ranked>(items: &Vec<T>) -> (r: Vec<usize>)
    ensures
        orders(items@, r@),
{
    sorted_range(items, 0, items.len())
}

/// Each place of a list, once.
pub open spec fn is_arrangement(places: Seq<usize>, len: nat) -> bool {
    &&& places.len() == len
    &&& forall|i: int| 0 <= i < len ==> #[trigger] places[i] < len
    &&& forall|i: int, j: int|
        0 <= i < j < len ==> #[trigger] places[i] != #[trigger] places[j]
}

/// Places in order are an arrangement.
pub proof fn lemma_orders_arranges<T: Ranked>(items: Seq<T>, places: Seq<usize>)
    requires
        orders(items, places),
    ensures
        is_arrangement(places, items.len()),
{
    assert forall|i: int, j: int| 0 <= i < j < places.len() implies #[trigger] places[i]
        != #[trigger] places[j] by {
        assert(precedes(items, places[i] as int, places[j] as int));
        if places[i] == places[j] {
            T::irreflexive(items[places[i] as int]);
        }
    }
}

/// The items at the given places.
pub open spec fn arranged_view<T>(items: Seq<T>, places: Seq<usize>) -> Seq<T> {
    Seq::new(places.len(), |i: int| items[places[i] as int])
}

/// Moves the items to the given places.
pub fn arranged<T>(items: Vec<T>, places: &Vec<usize>) -> (r: Vec<T>)
    requires
        is_arrangement(places@, items@.len()),
    ensures
        r@ == arranged_view(items@, places@),
{
    let ghost all = items@;
    let mut slots: Vec<Option<T>> = Vec::new();
    for item in iter: items
        invariant
            iter.seq() == all,
            slots@.len() == iter.index(),
            forall|i: int| 0 <= i < slots@.len() ==> #[trigger] slots@[i] == Some(all[i]),
    {
        slots.push(Some(item));
    }
    let mut out: Vec<T> = Vec::new();
    let mut i: usize = 0;
    while i < places.len()
        invariant
            is_arrangement(places@, all.len()),
            slots@.len() == all.len(),
            i <= places@.len(),
            out@.len() == i,
            forall|x: int| 0 <= x < i ==> #[trigger] out@[x] == all[places@[x] as int],
            forall|k: int|
                0 <= k < all.len() && (forall|x: int| 0 <= x < i ==> #[trigger] places@[x] != k)
                    ==> #[trigger] slots@[k] == Some(all[k]),
        decreases places@.len() - i,
    {
        let place: usize = places[i];
        let ghost slots_before = slots@;
        assert(slots@[place as int] == Some(all[place as int]));
        let slot = slots[place].take();
        assert(slots@ == slots_before.update(place as int, None));
        match slot {
            Some(item) => out.push(item),
            None => {},
        }
        i = i + 1;
        assert forall|k: int|
            0 <= k < all.len() && (forall|x: int| 0 <= x < i ==> #[trigger] places@[x] != k) implies
            #[trigger] slots@[k] == Some(all[k]) by {
            assert(places@[i - 1] != k);
            assert(forall|x: int| 0 <= x < i - 1 ==> #[trigger] places@[x] != k);
            assert(slots_before[k] == Some(all[k]));
        }
    }
    assert(out@ =~= arranged_view(all, places@));
    out
}

/// There is one order of the places.
pub proof fn law_order_is_determined<T: Ranked>(items: Seq<T>, a: Seq<usize>, b: Seq<usize>)
    requires
        orders(items, a),
        orders(items, b),
    ensures
        a == b,
{
    lemma_same_places(items, a, b, a.len());
    assert(a =~= b);
}

proof fn lemma_precedes_asymmetric<T: Ranked>(items: Seq<T>, i: int, j: int)
    requires
        precedes(items, i, j),
    ensures
        !precedes(items, j, i),
{
    if items[i].before(items[j]) && items[j].before(items[i]) {
        T::transitive(items[i], items[j], items[i]);
    }
    T::irreflexive(items[i]);
}

proof fn lemma_same_places<T: Ranked>(items: Seq<T>, a: Seq<usize>, b: Seq<usize>, n: nat)
    requires
        orders(items, a),
        orders(items, b),
        n <= items.len(),
    ensures
        forall|i: int| 0 <= i < n ==> a[i] == b[i],
    decreases n,
{
    if n > 0 {
        lemma_same_places(items, a, b, (n - 1) as nat);
        lemma_orders_arranges(items, a);
        lemma_orders_arranges(items, b);
        let m = n - 1;
        let p = a[m];
        assert(p == (p as int) as usize);
        assert(b.contains(p as int as usize));
        let k = choose|k: int| 0 <= k < b.len() && b[k] == p;
        let q = b[m];
        assert(a.contains(q as int as usize));
        let j = choose|j: int| 0 <= j < a.len() && a[j] == q;
        if k < m {
            assert(a[k] == b[k]);
        }
        if j < m {
            assert(a[j] == b[j]);
        }
        if k > m && j > m {
            assert(precedes(items, b[m] as int, b[k] as int));
            assert(precedes(items, a[m] as int, a[j] as int));
            lemma_precedes_asymmetric(items, a[m] as int, a[j] as int);
        }
    }
}

} // verus!
