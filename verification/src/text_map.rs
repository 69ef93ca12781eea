//! A map with texts as keys, kept in the order of the keys.

use crate::sort::{Ranked, arranged, arranged_view, lemma_orders_arranges, orders, precedes, sorted_places};
use crate::text::{Rank, lemma_text_less_irreflexive, lemma_text_less_total, lemma_text_less_transitive, rank_texts, text_less};
use vstd::prelude::*;

verus! {

/// A value with its key.
#[derive(Clone, Debug)]
pub struct Keyed<V> {
    pub key: String,
    pub value: V,
}

impl<V> Ranked for Keyed<V> {
    open spec fn before(self, other: Self) -> bool {
        text_less(self.key@, other.key@)
    }

    proof fn irreflexive(a: Self) {
        lemma_text_less_irreflexive(a.key@);
    }

    proof fn transitive(a: Self, b: Self, c: Self) {
        lemma_text_less_transitive(a.key@, b.key@, c.key@);
    }

    proof fn separating(a: Self, b: Self, c: Self) {
        lemma_text_less_total(a.key@, b.key@);
        if text_less(b.key@, a.key@) {
            lemma_text_less_transitive(b.key@, a.key@, c.key@);
        }
    }

    fn comes_before(&self, other: &Self) -> (r: bool) {
        match rank_texts(self.key.as_str(), other.key.as_str()) {
            Rank::Before => true,
            _ => {
                proof {
                    lemma_text_less_irreflexive(self.key@);
                }
                false
            },
        }
    }
}

/// The map that results when the pairs are put in one after the other.
pub open spec fn pairs_map<V>(pairs: Seq<Keyed<V>>) -> Map<Seq<char>, V>
    decreases pairs.len(),
{
    if pairs.len() == 0 {
        Map::empty()
    } else {
        pairs_map(pairs.drop_last()).insert(pairs.last().key@, pairs.last().value)
    }
}

/// The keys are in order, and none occurs twice.
pub open spec fn keys_in_order<V>(pairs: Seq<Keyed<V>>) -> bool {
    forall|i: int, j: int|
        0 <= i < j < pairs.len() ==> text_less(
            #[trigger] pairs[i].key@,
            #[trigger] pairs[j].key@,
        )
}

/// A pair has the key.
pub open spec fn has_key<V>(pairs: Seq<Keyed<V>>, key: Seq<char>) -> bool {
    exists|i: int| 0 <= i < pairs.len() && #[trigger] pairs[i].key@ == key
}

/// A key that is not among the pairs is not in their map.
pub proof fn lemma_pairs_map_absent<V>(pairs: Seq<Keyed<V>>, key: Seq<char>)
    requires
        forall|i: int| 0 <= i < pairs.len() ==> #[trigger] pairs[i].key@ != key,
    ensures
        !pairs_map(pairs).contains_key(key),
    decreases pairs.len(),
{
    if pairs.len() > 0 {
        assert forall|i: int| 0 <= i < pairs.drop_last().len() implies #[trigger] pairs.drop_last()[i].key@
            != key by {
            assert(pairs.drop_last()[i] == pairs[i]);
        }
        assert(pairs.last() == pairs[pairs.len() - 1]);
        lemma_pairs_map_absent(pairs.drop_last(), key);
    }
}

/// The last pair with a key gives its value in the map.
pub proof fn lemma_pairs_map_present<V>(pairs: Seq<Keyed<V>>, i: int)
    requires
        0 <= i < pairs.len(),
        forall|j: int| i < j < pairs.len() ==> #[trigger] pairs[j].key@ != pairs[i].key@,
    ensures
        pairs_map(pairs).contains_key(pairs[i].key@),
        pairs_map(pairs)[pairs[i].key@] == pairs[i].value,
    decreases pairs.len(),
{
    if i < pairs.len() - 1 {
        assert(pairs.last() == pairs[pairs.len() - 1]);
        assert forall|j: int| i < j < pairs.drop_last().len() implies #[trigger] pairs.drop_last()[j].key@
            != pairs.drop_last()[i].key@ by {
            assert(pairs.drop_last()[j] == pairs[j]);
        }
        lemma_pairs_map_present(pairs.drop_last(), i);
    }
}

/// A key of the map is that of some last pair with it.
pub proof fn lemma_pairs_map_key<V>(pairs: Seq<Keyed<V>>, key: Seq<char>) -> (i: int)
    requires
        pairs_map(pairs).contains_key(key),
    ensures
        0 <= i < pairs.len(),
        pairs[i].key@ == key,
        forall|j: int| i < j < pairs.len() ==> #[trigger] pairs[j].key@ != key,
        pairs_map(pairs)[key] == pairs[i].value,
    decreases pairs.len(),
{
    if pairs.last().key@ == key {
        pairs.len() - 1
    } else {
        let i = lemma_pairs_map_key(pairs.drop_last(), key);
        assert forall|j: int| i < j < pairs.len() implies #[trigger] pairs[j].key@ != key by {
            if j < pairs.len() - 1 {
                assert(pairs.drop_last()[j] == pairs[j]);
            }
        }
        i
    }
}

/// Where the keys are in order, each pair gives its value in the map.
pub proof fn lemma_ordered_pair<V>(pairs: Seq<Keyed<V>>, i: int)
    requires
        keys_in_order(pairs),
        0 <= i < pairs.len(),
    ensures
        pairs_map(pairs).contains_key(pairs[i].key@),
        pairs_map(pairs)[pairs[i].key@] == pairs[i].value,
{
    assert forall|j: int| i < j < pairs.len() implies #[trigger] pairs[j].key@ != pairs[i].key@ by {
        lemma_text_less_irreflexive(pairs[i].key@);
    }
    lemma_pairs_map_present(pairs, i);
}

/// A map with texts as keys.
#[derive(Debug)]
pub struct TextMap<V> {
    pairs: Vec<Keyed<V>>,
}

/// What is left of ordered pairs when of those with the same key the last one stays.
proof fn lemma_last_of_key<V>(
    log: Seq<Keyed<V>>,
    places: Seq<usize>,
    kept: Seq<Keyed<V>>,
    from: Seq<int>,
)
    requires
        orders(log, places),
        keys_in_order(kept),
        kept.len() == from.len(),
        forall|i: int|
            0 <= i < kept.len() ==> 0 <= #[trigger] from[i] < places.len() && kept[i]
                == log[places[from[i]] as int],
        forall|i: int, x: int|
            0 <= i < kept.len() && #[trigger] from[i] < x < places.len() ==> log[#[trigger] places[x] as int].key@
                != kept[i].key@,
        forall|x: int|
            0 <= x < places.len() ==> has_key(kept, log[#[trigger] places[x] as int].key@),
        log.len() <= usize::MAX,
    ensures
        pairs_map(kept) == pairs_map(log),
{
    let a = pairs_map(kept);
    let b = pairs_map(log);
    assert forall|key: Seq<char>|
        #![trigger a.dom().contains(key)]
        #![trigger b.dom().contains(key)]
        #![trigger a[key]]
        a.dom().contains(key) == b.dom().contains(key) && (a.dom().contains(key) ==> a[key]
            == b[key]) by {
        if a.contains_key(key) {
            let i = lemma_pairs_map_key(kept, key);
            let p = places[from[i]] as int;
            assert forall|q: int| p < q < log.len() implies #[trigger] log[q].key@ != log[p].key@ by {
                assert(places.contains(q as usize));
                let x = choose|x: int| 0 <= x < places.len() && places[x] == q as usize;
                if log[q].key@ == log[p].key@ {
                    assert(x <= from[i]);
                    lemma_text_less_irreflexive(log[p].key@);
                    if x < from[i] {
                        assert(precedes(log, places[x] as int, places[from[i]] as int));
                    }
                }
            }
            lemma_pairs_map_present(log, p);
        } else if b.contains_key(key) {
            let p = lemma_pairs_map_key(log, key);
            assert(places.contains(p as usize));
            let x = choose|x: int| 0 <= x < places.len() && places[x] == p as usize;
            let i = choose|i: int|
                0 <= i < kept.len() && #[trigger] kept[i].key@ == log[places[x] as int].key@;
            lemma_ordered_pair(kept, i);
        }
    }
    assert(a =~= b);
}

impl<V> TextMap<V> {
    #[verifier::type_invariant]
    spec fn in_order(self) -> bool {
        keys_in_order(self.pairs@)
    }

    /// What the map holds.
    pub closed spec fn view(&self) -> Map<Seq<char>, V> {
        pairs_map(self.pairs@)
    }

    /// The map of the pairs, of which a later one takes the place of an earlier one
    /// with the same key.
    pub fn from_pairs(log: Vec<Keyed<V>>) -> (r: TextMap<V>)
        ensures
            r@ == pairs_map(log@),
    {
        let ghost all = log@;
        let ghost count = log.len();
        let places = sorted_places(&log);
        proof {
            lemma_orders_arranges(all, places@);
        }
        let sorted = arranged(log, &places);
        let ghost run = arranged_view(all, places@);
        let mut kept: Vec<Keyed<V>> = Vec::new();
        let ghost mut from: Seq<int> = seq![];
        for pair in iter: sorted
            invariant
                iter.seq() == run,
                run == arranged_view(all, places@),
                orders(all, places@),
                kept@.len() == from.len(),
                keys_in_order(kept@),
                forall|i: int|
                    0 <= i < kept@.len() ==> 0 <= #[trigger] from[i] < iter.index() && kept@[i]
                        == run[from[i]],
                forall|i: int, x: int|
                    0 <= i < kept@.len() && #[trigger] from[i] < x < iter.index()
                        ==> #[trigger] run[x].key@ != kept@[i].key@,
                forall|x: int|
                    0 <= x < iter.index() ==> has_key(kept@, #[trigger] run[x].key@),
                kept@.len() > 0 ==> from.last() == iter.index() - 1,
                kept@.len() == 0 ==> iter.index() == 0,
        {
            let ghost n = iter.index();
            let ghost kept_before = kept@;
            let ghost from_before = from;
            assert(pair == run[n as int]);
            let again = if kept.len() > 0 {
                match rank_texts(kept[kept.len() - 1].key.as_str(), pair.key.as_str()) {
                    Rank::Same => true,
                    _ => false,
                }
            } else {
                false
            };
            proof {
                if kept@.len() > 0 {
                    let last = kept@.last().key@;
                    lemma_text_less_irreflexive(last);
                    lemma_text_less_irreflexive(pair.key@);
                    assert(precedes(all, places@[n - 1] as int, places@[n as int] as int));
                    assert(run[n - 1] == kept@.last());
                    lemma_text_less_total(last, pair.key@);
                    assert(again == (last == pair.key@));
                    assert(!again ==> text_less(last, pair.key@));
                    assert forall|i: int| 0 <= i < kept@.len() - 1 implies text_less(
                        #[trigger] kept@[i].key@,
                        pair.key@,
                    ) by {
                        if !again {
                            lemma_text_less_transitive(kept@[i].key@, last, pair.key@);
                        }
                    }
                }
            }
            if again {
                let _ = kept.pop();
                proof {
                    from = from.drop_last();
                }
            }
            let ghost key = pair.key@;
            kept.push(pair);
            proof {
                from = from.push(n as int);
                assert forall|i: int, j: int| 0 <= i < j < kept@.len() implies text_less(
                    #[trigger] kept@[i].key@,
                    #[trigger] kept@[j].key@,
                ) by {
                    assert(kept@[i] == kept_before[i]);
                    if j < kept@.len() - 1 {
                        assert(kept@[j] == kept_before[j]);
                    }
                }
                assert forall|i: int, x: int|
                    0 <= i < kept@.len() && #[trigger] from[i] < x < n + 1 implies #[trigger] run[x].key@
                    != kept@[i].key@ by {
                    assert(from[i] == from_before[i]);
                    assert(kept@[i] == kept_before[i]);
                    if x == n {
                        lemma_text_less_irreflexive(key);
                        assert(text_less(kept@[i].key@, key));
                    }
                }
                assert forall|x: int| 0 <= x < n + 1 implies has_key(
                    kept@,
                    #[trigger] run[x].key@,
                ) by {
                    if x < n {
                        let i = choose|i: int|
                            0 <= i < kept_before.len() && #[trigger] kept_before[i].key@
                                == run[x].key@;
                        if i < kept@.len() - 1 {
                            assert(kept@[i].key@ == run[x].key@);
                        } else {
                            assert(kept@[kept@.len() - 1].key@ == run[x].key@);
                        }
                    } else {
                        assert(kept@[kept@.len() - 1].key@ == run[x].key@);
                    }
                }
            }
        }
        proof {
            assert forall|x: int| 0 <= x < places@.len() implies has_key(
                kept@,
                all[#[trigger] places@[x] as int].key@,
            ) by {
                assert(has_key(kept@, run[x].key@));
            }
            assert forall|i: int, x: int|
                0 <= i < kept@.len() && #[trigger] from[i] < x < places@.len() implies all[#[trigger] places@[x] as int].key@
                != kept@[i].key@ by {
                assert(run[x].key@ != kept@[i].key@);
            }
            assert(all.len() == count);
            lemma_last_of_key(all, places@, kept@, from);
        }
        TextMap { pairs: kept }
    }

    /// The pairs, in the order of their keys.
    pub fn pairs(&self) -> (r: &Vec<Keyed<V>>)
        ensures
            keys_in_order(r@),
            pairs_map(r@) == self@,
    {
        proof {
            use_type_invariant(self);
        }
        &self.pairs
    }

    /// The value of a key.
    pub fn get(&self, key: &str) -> (r: Option<&V>)
        ensures
            match r {
                Some(v) => self@.contains_key(key@) && self@[key@] == *v,
                None => !self@.contains_key(key@),
            },
    {
        proof {
            use_type_invariant(self);
        }
        let mut low: usize = 0;
        let mut high: usize = self.pairs.len();
        while low < high
            invariant
                keys_in_order(self.pairs@),
                low <= high <= self.pairs@.len(),
                forall|i: int| 0 <= i < low ==> text_less(#[trigger] self.pairs@[i].key@, key@),
                forall|i: int|
                    high <= i < self.pairs@.len() ==> text_less(key@, #[trigger] self.pairs@[i].key@),
            decreases high - low,
        {
            let middle: usize = low + (high - low) / 2;
            match rank_texts(self.pairs[middle].key.as_str(), key) {
                Rank::Same => {
                    proof {
                        lemma_ordered_pair(self.pairs@, middle as int);
                    }
                    return Some(&self.pairs[middle].value);
                },
                Rank::Before => {
                    proof {
                        assert forall|i: int| 0 <= i < middle + 1 implies text_less(
                            #[trigger] self.pairs@[i].key@,
                            key@,
                        ) by {
                            if i < middle {
                                lemma_text_less_transitive(
                                    self.pairs@[i].key@,
                                    self.pairs@[middle as int].key@,
                                    key@,
                                );
                            }
                        }
                    }
                    low = middle + 1;
                },
                Rank::After => {
                    proof {
                        let here = self.pairs@[middle as int].key@;
                        lemma_text_less_total(here, key@);
                        lemma_text_less_irreflexive(key@);
                        assert forall|i: int| middle <= i < self.pairs@.len() implies text_less(
                            key@,
                            #[trigger] self.pairs@[i].key@,
                        ) by {
                            if i > middle {
                                lemma_text_less_transitive(key@, here, self.pairs@[i].key@);
                            }
                        }
                    }
                    high = middle;
                },
            }
        }
        proof {
            assert forall|i: int| 0 <= i < self.pairs@.len() implies #[trigger] self.pairs@[i].key@
                != key@ by {
                lemma_text_less_irreflexive(key@);
            }
            lemma_pairs_map_absent(self.pairs@, key@);
        }
        None
    }
}

} // verus!
