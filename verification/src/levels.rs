//! One side of an order book: quantities by price, in price order.

use crate::binary64::Binary64;
use std::collections::BTreeMap;
use vstd::prelude::*;

verus! {

/// A price and the quantity that rests there.
#[derive(Clone, Copy, Debug)]
pub struct PriceLevel {
    pub price: Binary64,
    pub quantity: Binary64,
}

/// Price levels, keyed by the total order of their prices.
#[derive(Clone, Debug)]
pub struct PriceLevels {
    levels: BTreeMap<u64, PriceLevel>,
}

/// The levels after `quantity` is set at `price`.  A level that is already there
/// keeps the price that it was made with.
pub open spec fn with_level(
    levels: Map<u64, PriceLevel>,
    price: Binary64,
    quantity: Binary64,
) -> Map<u64, PriceLevel> {
    let key = price.order_key();
    let kept = if levels.contains_key(key) {
        levels[key].price
    } else {
        price
    };
    levels.insert(key, PriceLevel { price: kept, quantity })
}

/// Every level lies at the key of its own price.
pub open spec fn keyed_by_price(levels: Map<u64, PriceLevel>) -> bool {
    forall|k: u64| #[trigger] levels.contains_key(k) ==> levels[k].price.order_key() == k
}

pub open spec fn is_lowest(levels: Map<u64, PriceLevel>, key: u64) -> bool {
    levels.contains_key(key) && forall|k: u64| #[trigger] levels.contains_key(k) ==> key <= k
}

pub open spec fn is_highest(levels: Map<u64, PriceLevel>, key: u64) -> bool {
    levels.contains_key(key) && forall|k: u64| #[trigger] levels.contains_key(k) ==> k <= key
}

/// The level with the lowest price.
pub open spec fn lowest_level(levels: Map<u64, PriceLevel>) -> Option<PriceLevel> {
    if exists|key: u64| is_lowest(levels, key) {
        Some(levels[choose|key: u64| is_lowest(levels, key)])
    } else {
        None
    }
}

/// The level with the highest price.
pub open spec fn highest_level(levels: Map<u64, PriceLevel>) -> Option<PriceLevel> {
    if exists|key: u64| is_highest(levels, key) {
        Some(levels[choose|key: u64| is_highest(levels, key)])
    } else {
        None
    }
}

/// `keys` lists the keys of the levels, each once, from the lowest up.
pub open spec fn lists_keys(levels: Map<u64, PriceLevel>, keys: Seq<u64>) -> bool {
    &&& forall|i: int, j: int| 0 <= i < j < keys.len() ==> keys[i] < keys[j]
    &&& forall|i: int| 0 <= i < keys.len() ==> levels.contains_key(#[trigger] keys[i])
    &&& forall|k: u64| #[trigger] levels.contains_key(k) ==> keys.contains(k)
}

/// The keys of the levels can be listed: there are finitely many.
pub open spec fn has_key_list(levels: Map<u64, PriceLevel>) -> bool {
    exists|keys: Seq<u64>| lists_keys(levels, keys)
}

/// The levels from the lowest price up.
pub open spec fn ascending(levels: Map<u64, PriceLevel>) -> Seq<PriceLevel> {
    (choose|keys: Seq<u64>| lists_keys(levels, keys)).map_values(|k: u64| levels[k])
}

/// Finitely many keys can be listed in order.
pub proof fn lemma_finite_has_key_list(levels: Map<u64, PriceLevel>)
    requires
        levels.dom().finite(),
    ensures
        has_key_list(levels),
    decreases levels.dom().len(),
{
    if levels.dom().len() == 0 {
        assert(lists_keys(levels, Seq::empty()));
    } else {
        lemma_finite_has_highest(levels);
        let high = choose|key: u64| is_highest(levels, key);
        let rest = levels.remove(high);
        lemma_finite_has_key_list(rest);
        let keys = choose|keys: Seq<u64>| lists_keys(rest, keys);
        let all = keys.push(high);
        assert forall|k: u64| #[trigger] levels.contains_key(k) implies all.contains(k) by {
            if k == high {
                assert(all[keys.len() as int] == k);
            } else {
                assert(rest.contains_key(k));
                let i = choose|i: int| 0 <= i < keys.len() && keys[i] == k;
                assert(all[i] == k);
            }
        }
        assert forall|i: int| 0 <= i < all.len() implies levels.contains_key(#[trigger] all[i]) by {
            if i < keys.len() {
                assert(rest.contains_key(keys[i]));
            }
        }
        assert forall|i: int, j: int| 0 <= i < j < all.len() implies all[i] < all[j] by {
            assert(rest.contains_key(keys[i]));
        }
        assert(lists_keys(levels, all));
    }
}

proof fn lemma_finite_has_highest(levels: Map<u64, PriceLevel>)
    requires
        levels.dom().finite(),
        levels.dom().len() > 0,
    ensures
        exists|key: u64| is_highest(levels, key),
    decreases levels.dom().len(),
{
    let some = levels.dom().choose();
    let rest = levels.remove(some);
    if rest.dom().len() == 0 {
        assert forall|k: u64| #[trigger] levels.contains_key(k) implies k <= some by {
            if k != some {
                assert(rest.dom().contains(k));
            }
        }
        assert(is_highest(levels, some));
    } else {
        lemma_finite_has_highest(rest);
        let high = choose|key: u64| is_highest(rest, key);
        let top = if some < high {
            high
        } else {
            some
        };
        assert forall|k: u64| #[trigger] levels.contains_key(k) implies k <= top by {
            if k != some {
                assert(rest.contains_key(k));
            }
        }
        assert(is_highest(levels, top));
    }
}

/// There is only one ordered list of the keys.
pub proof fn lemma_key_list_unique(levels: Map<u64, PriceLevel>, a: Seq<u64>, b: Seq<u64>)
    requires
        lists_keys(levels, a),
        lists_keys(levels, b),
    ensures
        a == b,
{
    lemma_same_order(a, b, 0);
}

proof fn lemma_same_order(a: Seq<u64>, b: Seq<u64>, i: int)
    requires
        0 <= i <= a.len(),
        i <= b.len(),
        forall|j: int| 0 <= j < i ==> a[j] == b[j],
        forall|i: int, j: int| 0 <= i < j < a.len() ==> a[i] < a[j],
        forall|i: int, j: int| 0 <= i < j < b.len() ==> b[i] < b[j],
        forall|j: int| 0 <= j < a.len() ==> b.contains(#[trigger] a[j]),
        forall|j: int| 0 <= j < b.len() ==> a.contains(#[trigger] b[j]),
    ensures
        a == b,
    decreases a.len() - i,
{
    if i < a.len() {
        assert(b.contains(a[i]));
        let j = choose|j: int| 0 <= j < b.len() && b[j] == a[i];
        assert(j >= i);
        assert(a.contains(b[i]));
        let k = choose|k: int| 0 <= k < a.len() && a[k] == b[i];
        assert(k >= i);
        assert(a[i] == b[i]);
        lemma_same_order(a, b, i + 1);
    } else {
        if i < b.len() {
            assert(a.contains(b[i]));
            let k = choose|k: int| 0 <= k < a.len() && a[k] == b[i];
            assert(false);
        }
        assert(a =~= b);
    }
}

pub proof fn lemma_ascending(levels: Map<u64, PriceLevel>, keys: Seq<u64>)
    requires
        lists_keys(levels, keys),
    ensures
        ascending(levels) == keys.map_values(|k: u64| levels[k]),
{
    let chosen = choose|keys: Seq<u64>| lists_keys(levels, keys);
    lemma_key_list_unique(levels, keys, chosen);
}

/// The list of levels starts with the lowest and ends with the highest.
pub proof fn lemma_ascending_ends(levels: Map<u64, PriceLevel>)
    requires
        levels.dom().finite(),
    ensures
        ascending(levels).len() == 0 ==> lowest_level(levels) is None && highest_level(levels) is None,
        ascending(levels).len() > 0 ==> {
            &&& lowest_level(levels) == Some(ascending(levels).first())
            &&& highest_level(levels) == Some(ascending(levels).last())
        },
{
    lemma_finite_has_key_list(levels);
    let keys = choose|keys: Seq<u64>| lists_keys(levels, keys);
    if keys.len() > 0 {
        let low = keys[0];
        let high = keys[keys.len() - 1];
        assert forall|k: u64| #[trigger] levels.contains_key(k) implies low <= k && k <= high by {
            let i = choose|i: int| 0 <= i < keys.len() && keys[i] == k;
        }
        assert(is_lowest(levels, low));
        assert(is_highest(levels, high));
    } else {
        assert forall|k: u64| !(#[trigger] levels.contains_key(k)) by {
            if levels.contains_key(k) {
                assert(keys.contains(k));
            }
        }
    }
}

impl View for PriceLevels {
    type V = Map<u64, PriceLevel>;

    closed spec fn view(&self) -> Map<u64, PriceLevel> {
        self.levels@
    }
}

impl PriceLevels {
    /// Every level lies at the key of its own price.
    pub open spec fn wf(self) -> bool {
        keyed_by_price(self@)
    }

    /// There are finitely many levels.
    pub proof fn lemma_finite(self)
        ensures
            self@.dom().finite(),
    {
    }

    pub fn new() -> (levels: PriceLevels)
        ensures
            levels@ == Map::<u64, PriceLevel>::empty(),
            levels.wf(),
    {
        PriceLevels { levels: BTreeMap::new() }
    }

    pub fn clear(&mut self)
        ensures
            final(self)@ == Map::<u64, PriceLevel>::empty(),
            final(self).wf(),
    {
        self.levels.clear();
    }

    /// Sets the quantity at a price.
    pub fn insert(&mut self, price: Binary64, quantity: Binary64)
        ensures
            final(self)@ == with_level(old(self)@, price, quantity),
            old(self).wf() ==> final(self).wf(),
    {
        let key = price.total_order_key();
        let kept = match self.levels.get(&key) {
            Some(level) => level.price,
            None => price,
        };
        self.levels.insert(key, PriceLevel { price: kept, quantity });
    }

    /// Takes the level at a price out.
    pub fn remove(&mut self, price: Binary64)
        ensures
            final(self)@ == old(self)@.remove(price.order_key()),
            old(self).wf() ==> final(self).wf(),
    {
        let key = price.total_order_key();
        self.levels.remove(&key);
    }

    /// The number of levels.
    pub fn len(&self) -> (n: usize)
        ensures
            n == self@.len(),
    {
        self.levels.len()
    }

    /// The levels from the lowest price up.
    pub fn entries(&self) -> (entries: Vec<PriceLevel>)
        ensures
            entries@ == ascending(self@),
    {
        let mut entries: Vec<PriceLevel> = Vec::new();
        let mut keys: Vec<u64> = Vec::new();
        for kv in it: self.levels.iter()
            invariant
                entries@.len() == it.index(),
                keys@.len() == it.index(),
                forall|i: int| 0 <= i < it.index() ==> #[trigger] keys@[i] == *it.seq()[i].0,
                forall|i: int| 0 <= i < it.index() ==> #[trigger] entries@[i] == *it.seq()[i].1,
        {
            keys.push(*kv.0);
            entries.push(*kv.1);
        }
        proof {
            let pairs = vstd::std_specs::iter::IteratorSpec::remaining(
                &vstd::std_specs::btree::spec_btree_map_iter(&self.levels),
            );
            let listed = pairs.map_values(|kv: (&u64, &PriceLevel)| *kv.0);
            assert(keys@ =~= listed);
            assert forall|k: u64| #[trigger] self@.contains_key(k) implies keys@.contains(k) by {
                let i = choose|i: int| 0 <= i < pairs.len() && pairs[i] == (&k, &self@[k]);
                assert(keys@[i] == k);
            }
            assert(vstd::std_specs::btree::increasing_seq(listed));
            assert forall|i: int, j: int| 0 <= i < j < keys@.len() implies keys@[i] < keys@[j] by {
                assert(vstd::std_specs::cmp::OrdSpec::cmp_spec(&listed[i], &listed[j]) is Less);
            }
            assert(forall|i: int| 0 <= i < keys@.len() ==> self@.contains_key(#[trigger] keys@[i]));
            assert(lists_keys(self@, keys@));
            lemma_ascending(self@, keys@);
            assert(entries@ =~= keys@.map_values(|k: u64| self@[k]));
        }
        entries
    }

    /// The level with the lowest price.
    pub fn lowest(&self) -> (level: Option<PriceLevel>)
        ensures
            level == lowest_level(self@),
    {
        let entries = self.entries();
        proof {
            lemma_ascending_ends(self@);
        }
        if entries.len() == 0 {
            None
        } else {
            Some(entries[0])
        }
    }

    /// The level with the highest price.
    pub fn highest(&self) -> (level: Option<PriceLevel>)
        ensures
            level == highest_level(self@),
    {
        let entries = self.entries();
        proof {
            lemma_ascending_ends(self@);
        }
        if entries.len() == 0 {
            None
        } else {
            Some(entries[entries.len() - 1])
        }
    }
}

} // verus!
