//! A similarity-search index over a proximity graph.
//!
//! Every node keeps a fixed number of nearest other nodes, closest first. The
//! index is built from the distances between its points. A distance is an
//! `i32` rank (see [`distance::total_order_rank`]): smaller ranks are closer,
//! and equal ranks are ordered by position.

use std::collections::HashMap;
use std::hash::Hash;
use vstd::prelude::*;
use vstd::std_specs::hash::obeys_key_model;

pub mod distance;
pub mod error;
pub mod layer;
pub mod neighbors;

pub use error::BuildError as HsnwBuildError;

use crate::error::BuildError;
use crate::layer::Layer;
use crate::neighbors::{
    ascending, closer, covers, distinct, lemma_ascending, lemma_insert, lemma_nearest_is_unique,
    lemma_one_short_is_complete, lemma_seed, lemma_skip, lemma_swap, nearest, ranks_before, seed,
    seed_bound, within,
};

verus! {

/// One point of the index: its payload and its neighbor lists. The distances
/// from the point to every position, which the lists were made from, are
/// kept for the contracts alone.
struct Node<T, const L0: usize, const L1: usize, const L2: usize, const L3: usize> {
    distances: Ghost<Seq<i32>>,
    data: T,
    layer: Layer<L0, L1, L2, L3>,
}

impl<T, const L0: usize, const L1: usize, const L2: usize, const L3: usize> Node<T, L0, L1, L2, L3> {
    /// Turns the seed list of the node at position `index` into the ranking
    /// of its `L0` nearest other positions, by the distances `distances`
    /// from the node to every position.
    fn compute_l0(&mut self, index: usize, distances: &Vec<i32>)
        requires
            distances@ == old(self).distances@,
            index < distances.len(),
            L0 < distances.len(),
            old(self).layer.base()@ == seed(index as int, L0 as int),
        ensures
            final(self).distances == old(self).distances,
            final(self).data == old(self).data,
            final(self).layer == old(self).layer.with_base(final(self).layer.base()),
            final(self).layer.base()@.len() == L0,
            nearest(distances@, index as int, distances.len() as int, final(self).layer.base()@),
    {
        let n = distances.len();
        let ghost row = distances@;
        let ghost owner = index as int;
        let ghost bound = seed_bound(owner, L0 as int);
        let mut list: [usize; L0] = *self.layer.l0();
        proof {
            lemma_seed(owner, L0 as int);
        }

        /* Sort the seed, nearest first */
        let mut i: usize = 0;
        while i < L0
            invariant
                i <= L0,
                L0 < n,
                n == row.len(),
                row == distances@,
                bound == seed_bound(owner, L0 as int),
                within(owner, bound, list@),
                covers(owner, bound, list@),
                distinct(list@),
                ascending(row, list@.take(i as int)),
            decreases L0 - i,
        {
            let mut p: usize = i;
            proof {
                assert forall|k: int, l: int| 0 <= k < l < i implies closer(
                    row,
                    #[trigger] list@[k] as int,
                    #[trigger] list@[l] as int,
                ) by {
                    assert(list@.take(i as int)[k] == list@[k]);
                    assert(list@.take(i as int)[l] == list@[l]);
                }
            }
            while p > 0 && ranks_before(distances, list[p], list[p - 1])
                invariant
                    p <= i < L0,
                    L0 < n,
                    n == row.len(),
                    row == distances@,
                    bound == seed_bound(owner, L0 as int),
                    within(owner, bound, list@),
                    covers(owner, bound, list@),
                    distinct(list@),
                    forall|k: int, l: int|
                        0 <= k < l <= i && k != p && l != p ==> closer(
                            row,
                            #[trigger] list@[k] as int,
                            #[trigger] list@[l] as int,
                        ),
                    forall|l: int| p < l <= i ==> closer(row, list@[p as int] as int, #[trigger] list@[l] as int),
                decreases p,
            {
                let ghost before = list@;
                let moved = list[p];
                list[p] = list[p - 1];
                list[p - 1] = moved;
                proof {
                    lemma_swap(owner, bound, before, list@, p as int);
                }
                p -= 1;
            }
            proof {
                assert forall|k: int, l: int| 0 <= k < l < i + 1 implies closer(
                    row,
                    #[trigger] list@.take(i + 1)[k] as int,
                    #[trigger] list@.take(i + 1)[l] as int,
                ) by {
                    if l == p {
                        assert(list@[p - 1] != list@[p as int]);
                        assert(closer(row, list@[p - 1] as int, list@[p as int] as int));
                        assert(k == p - 1 || closer(row, list@[k] as int, list@[p - 1] as int));
                    }
                }
            }
            i += 1;
        }
        proof {
            assert(list@.take(L0 as int) =~= list@);
        }

        /* Offer every later position to the sorted list */
        let mut j: usize = if index < L0 { L0 + 1 } else { L0 };
        while j < n
            invariant
                bound <= j <= n,
                L0 < n,
                index < n,
                owner == index,
                n == row.len(),
                row == distances@,
                nearest(row, owner, j as int, list@),
            decreases n - j,
        {
            if j != index {
                /* Find the first slot that holds a position farther than the candidate */
                let candidate_distance = distances[j];
                let mut low: usize = 0;
                let mut high: usize = L0;
                while low < high
                    invariant
                        low <= high <= L0,
                        j < n,
                        L0 < n,
                        n == row.len(),
                        row == distances@,
                        candidate_distance == row[j as int],
                        nearest(row, owner, j as int, list@),
                        forall|k: int| 0 <= k < low ==> row[#[trigger] list@[k] as int] <= candidate_distance,
                        forall|k: int| high <= k < L0 ==> row[#[trigger] list@[k] as int] > candidate_distance,
                    decreases high - low,
                {
                    let middle = low + (high - low) / 2;
                    if distances[list[middle]] <= candidate_distance {
                        proof {
                            assert forall|k: int| 0 <= k < middle + 1 implies row[#[trigger] list@[k] as int]
                                <= candidate_distance by {
                                assert(k == middle || closer(row, list@[k] as int, list@[middle as int] as int));
                            }
                        }
                        low = middle + 1;
                    } else {
                        proof {
                            assert forall|k: int| middle <= k < L0 implies row[#[trigger] list@[k] as int]
                                > candidate_distance by {
                                assert(k == middle || closer(row, list@[middle as int] as int, list@[k] as int));
                            }
                        }
                        high = middle;
                    }
                }
                let insert_index = low;

                if insert_index < L0 {
                    /* Move the later entries one slot on; the last one leaves */
                    let ghost before = list@;
                    let mut k: usize = L0 - 1;
                    while k > insert_index
                        invariant
                            insert_index <= k < L0,
                            before.len() == L0,
                            forall|m: int| 0 <= m <= k ==> list@[m] == before[m],
                            forall|m: int| k < m < L0 ==> list@[m] == before[m - 1],
                        decreases k,
                    {
                        list[k] = list[k - 1];
                        k -= 1;
                    }
                    list[insert_index] = j;
                    proof {
                        lemma_insert(row, owner, j as int, before, insert_index as int, list@);
                    }
                } else {
                    proof {
                        lemma_skip(row, owner, j as int, list@);
                    }
                }
            } else {
                proof {
                    lemma_skip(row, owner, j as int, list@);
                }
            }
            j += 1;
        }

        *self.layer.l0_mut() = list;
    }
}

/// The first lower bound on the number of points that `found` misses, as the
/// count that is needed and the name of what needs it.
pub open spec fn shortfall(found: int, l0: int, l1: int, l2: int, l3: int) -> Option<(int, Seq<char>)> {
    if found == 0 {
        Some((1, "entry point"@))
    } else if found <= l0 {
        Some((l0 + 1, "L0"@))
    } else if found <= l1 {
        Some((l1 + 1, "L1"@))
    } else if found <= l2 {
        Some((l2 + 1, "L2"@))
    } else if found <= l3 {
        Some((l3 + 1, "L3"@))
    } else {
        None
    }
}

/// The map from each key to a position that holds it, filled in positional
/// order, so that a later position replaces an earlier one.
pub open spec fn positions_by_key<K>(keys: Seq<K>) -> Map<K, usize>
    decreases keys.len(),
{
    if keys.len() == 0 {
        Map::empty()
    } else {
        positions_by_key(keys.drop_last()).insert(keys.last(), (keys.len() - 1) as usize)
    }
}

/// Every point comes with a distance to each point.
pub open spec fn full_rows<T>(data_points: Seq<(Vec<i32>, T)>) -> bool {
    forall|i: int| 0 <= i < data_points.len() ==> (#[trigger] data_points[i]).0@.len() == data_points.len()
}

/// Whether every point comes with a distance to each point.
pub fn has_full_rows<T>(data_points: &[(Vec<i32>, T)]) -> (full: bool)
    ensures
        full == full_rows(data_points@),
{
    let n = data_points.len();
    let mut i: usize = 0;
    while i < n
        invariant
            i <= n,
            n == data_points@.len(),
            forall|k: int| 0 <= k < i ==> (#[trigger] data_points@[k]).0@.len() == n,
        decreases n - i,
    {
        if data_points[i].0.len() != n {
            return false;
        }
        i += 1;
    }
    true
}

/// What a filter may answer on a payload; without a filter every payload is
/// kept.
pub open spec fn verdict<T, F: Fn(&T) -> bool>(filter: Option<F>, payload: &T, keep: bool) -> bool {
    match filter {
        Some(f) => f.ensures((payload,), keep),
        None => keep,
    }
}

/// A proximity graph over a fixed set of points, with a lookup from key to
/// position.
pub struct Hsnw<K, T, const L0: usize, const L1: usize, const L2: usize, const L3: usize> {
    nodes: Vec<Node<T, L0, L1, L2, L3>>,
    lookup: HashMap<K, usize>,
    keys: Ghost<Seq<K>>,
}

impl<K, T, const L0: usize, const L1: usize, const L2: usize, const L3: usize> Hsnw<K, T, L0, L1, L2, L3> {
    /// The number of points.
    pub closed spec fn len(&self) -> int {
        self.nodes@.len() as int
    }

    /// The distance from the point at `position` to every position.
    pub closed spec fn distances(&self, position: int) -> Seq<i32> {
        self.nodes@[position].distances@
    }

    /// The payload of the point at `position`.
    pub closed spec fn payload(&self, position: int) -> T {
        self.nodes@[position].data
    }

    /// The keys of all points, by position.
    pub closed spec fn keys(&self) -> Seq<K> {
        self.keys@
    }

    /// The base-tier neighbor list of the point at `position`.
    pub closed spec fn neighbors(&self, position: int) -> Seq<usize> {
        self.nodes@[position].layer.base()@
    }

    /// Whether the point at `position` takes part in the base tier alone.
    pub closed spec fn base_tier_only(&self, position: int) -> bool {
        self.nodes@[position].layer is Layer0
    }

    /// The position that each key leads to.
    pub closed spec fn lookup(&self) -> Map<K, usize> {
        self.lookup@
    }

    /// What holds of every built index.
    pub open spec fn wf(&self) -> bool {
        &&& obeys_key_model::<K>()
        &&& L0 < self.len()
        &&& self.keys().len() == self.len()
        &&& forall|position: int|
            0 <= position < self.len() ==> {
                &&& (#[trigger] self.distances(position)).len() == self.len()
                &&& self.base_tier_only(position)
            }
        &&& forall|position: int|
            0 <= position < self.len() ==> {
                &&& (#[trigger] self.neighbors(position)).len() == L0
                &&& nearest(self.distances(position), position, self.len(), self.neighbors(position))
            }
        &&& self.lookup() == positions_by_key(self.keys())
    }

    /// The payloads `out` are picked from the neighbor list of the point at
    /// `start`, at the slots `slots`: in list order, each one kept by the
    /// filter, every slot passed over on the way rejected by it, and the
    /// list read to its end unless `max` payloads were found before.
    pub open spec fn picks<F: Fn(&T) -> bool>(
        &self,
        start: int,
        filter: Option<F>,
        max: int,
        slots: Seq<int>,
        out: Seq<&T>,
    ) -> bool {
        let list = self.neighbors(start);
        let read = if out.len() < max {
            L0 as int
        } else if max == 0 {
            0
        } else {
            slots.last() + 1
        };
        &&& slots.len() == out.len()
        &&& out.len() <= max
        &&& forall|i: int|
            0 <= i < slots.len() ==> {
                &&& 0 <= #[trigger] slots[i] < L0
                &&& *out[i] == self.payload(list[slots[i]] as int)
                &&& verdict(filter, out[i], true)
            }
        &&& forall|i: int, j: int| 0 <= i < j < slots.len() ==> #[trigger] slots[i] < #[trigger] slots[j]
        &&& forall|slot: int|
            0 <= slot < read && !slots.contains(slot) ==> verdict(
                filter,
                &self.payload(#[trigger] list[slot] as int),
                false,
            )
    }
}

impl<K: Eq + Hash, T: Clone, const L0: usize, const L1: usize, const L2: usize, const L3: usize> Hsnw<
    K,
    T,
    L0,
    L1,
    L2,
    L3,
> {
    /// Builds the index over `data_points`. A point is the row of its
    /// distances to every point, itself included, and its payload;
    /// `get_key_f` gives the key of a payload.
    pub fn new<F: Fn(&T) -> K>(data_points: &[(Vec<i32>, T)], get_key_f: F) -> (built: Result<
        Self,
        BuildError,
    >)
        requires
            obeys_key_model::<K>(),
            L0 < usize::MAX,
            L1 < usize::MAX,
            L2 < usize::MAX,
            L3 < usize::MAX,
            full_rows(data_points@),
            forall|i: int, payload: T|
                0 <= i < data_points@.len() && cloned(#[trigger] data_points@[i].1, payload)
                    ==> #[trigger] get_key_f.requires((&payload,)),
        ensures
            match built {
                Err(BuildError::NotEnoughDataPoints { expected, cause, found }) => {
                    &&& shortfall(data_points@.len() as int, L0 as int, L1 as int, L2 as int, L3 as int)
                        == Some((expected as int, cause@))
                    &&& found == data_points@.len()
                },
                Ok(index) => {
                    &&& shortfall(data_points@.len() as int, L0 as int, L1 as int, L2 as int, L3 as int)
                        is None
                    &&& index.wf()
                    &&& index.len() == data_points@.len()
                    &&& forall|i: int|
                        0 <= i < data_points@.len() ==> #[trigger] index.distances(i) == data_points@[i].0@
                    &&& forall|i: int|
                        0 <= i < data_points@.len() ==> cloned(data_points@[i].1, #[trigger] index.payload(i))
                    &&& forall|i: int|
                        0 <= i < data_points@.len() ==> get_key_f.ensures(
                            (&index.payload(i),),
                            #[trigger] index.keys()[i],
                        )
                },
            },
            1 <= data_points@.len() <= L0 ==> (built matches Err(
                BuildError::NotEnoughDataPoints { expected, cause, found },
            ) && expected == L0 + 1 && cause@ == "L0"@ && found == data_points@.len()),
    {
        broadcast use vstd::std_specs::hash::group_hash_axioms;

        let n = data_points.len();
        /* Every tier needs more points than it holds per node, and the entry point needs one */
        if n == 0 {
            return Err(BuildError::not_enough_data_points(1, "entry point", 0));
        }
        if n <= L0 {
            return Err(BuildError::not_enough_data_points(L0 + 1, "L0", n));
        }
        if n <= L1 {
            return Err(BuildError::not_enough_data_points(L1 + 1, "L1", n));
        }
        if n <= L2 {
            return Err(BuildError::not_enough_data_points(L2 + 1, "L2", n));
        }
        if n <= L3 {
            return Err(BuildError::not_enough_data_points(L3 + 1, "L3", n));
        }

        let mut nodes: Vec<Node<T, L0, L1, L2, L3>> = Vec::new();
        let mut lookup: HashMap<K, usize> = HashMap::new();
        let ghost mut keys: Seq<K> = Seq::empty();
        let mut index: usize = 0;
        while index < n
            invariant
                index <= n,
                n == data_points@.len(),
                L0 < n,
                forall|i: int| 0 <= i < n ==> (#[trigger] data_points@[i]).0@.len() == n,
                forall|i: int, payload: T|
                    0 <= i < n && cloned(#[trigger] data_points@[i].1, payload)
                        ==> #[trigger] get_key_f.requires((&payload,)),
                nodes@.len() == index,
                keys.len() == index,
                obeys_key_model::<K>(),
                lookup@ == positions_by_key(keys),
                forall|i: int|
                    0 <= i < index ==> {
                        &&& (#[trigger] nodes@[i]).distances@ == data_points@[i].0@
                        &&& cloned(data_points@[i].1, nodes@[i].data)
                        &&& get_key_f.ensures((&nodes@[i].data,), keys[i])
                        &&& nodes@[i].layer is Layer0
                        &&& nodes@[i].layer.base()@.len() == L0
                        &&& nearest(nodes@[i].distances@, i, n as int, nodes@[i].layer.base()@)
                    },
            decreases n - index,
        {
            let point = &data_points[index];

            /* Start from the first positions, the point's own left out */
            let mut l0_neighbors: [usize; L0] = [0usize; L0];
            let mut i: usize = 0;
            while i < L0
                invariant
                    i <= L0,
                    L0 < usize::MAX,
                    forall|k: int| 0 <= k < i ==> l0_neighbors@[k] == seed(index as int, L0 as int)[k],
                decreases L0 - i,
            {
                l0_neighbors[i] = if i < index { i } else { i + 1 };
                i += 1;
            }
            assert(l0_neighbors@ =~= seed(index as int, L0 as int));

            let data = point.1.clone();
            let key = get_key_f(&data);
            proof {
                assert(keys.push(key).drop_last() =~= keys);
                keys = keys.push(key);
            }
            let mut node = Node { distances: Ghost(point.0@), data, layer: Layer::Layer0 { l0_neighbors } };
            node.compute_l0(index, &point.0);
            nodes.push(node);
            lookup.insert(key, index);
            index += 1;
        }

        Ok(Self { nodes, lookup, keys: Ghost(keys) })
    }
}

impl<K: Eq + Hash, T, const L0: usize, const L1: usize, const L2: usize, const L3: usize> Hsnw<
    K,
    T,
    L0,
    L1,
    L2,
    L3,
> {
    /// The payloads of the nearest neighbors of the point that `key` leads
    /// to, closest first: those that `filter` keeps, `max_results` of them at
    /// most. Only the point's own neighbor list is read.
    pub fn closest_neighbors_from_key<F: Fn(&T) -> bool>(
        &self,
        key: &K,
        max_results: usize,
        filter: Option<F>,
    ) -> (found: Option<Vec<&T>>)
        requires
            self.wf(),
            filter matches Some(f) ==> forall|position: int|
                0 <= position < self.len() ==> f.requires((&#[trigger] self.payload(position),)),
        ensures
            found is Some <==> self.lookup().contains_key(*key),
            found matches Some(out) ==> {
                let start = self.lookup()[*key] as int;
                &&& 0 <= start < self.len()
                &&& out@.len() <= max_results
                &&& out@.len() <= L0
                &&& exists|slots: Seq<int>| self.picks(start, filter, max_results as int, slots, out@)
                &&& filter is None ==> {
                    &&& out@.len() == if max_results < L0 { max_results } else { L0 }
                    &&& forall|i: int|
                        0 <= i < out@.len() ==> *#[trigger] out@[i] == self.payload(
                            self.neighbors(start)[i] as int,
                        )
                }
                &&& (forall|payload: &T| !verdict(filter, payload, true)) ==> out@.len() == 0
            },
    {
        broadcast use vstd::std_specs::hash::group_hash_axioms;

        /* Start by looking up the exact search point by key */
        let start_point_index = match self.lookup.get(key) {
            Some(position) => *position,
            None => {
                return None;
            },
        };
        let node_count = self.nodes.len();
        proof {
            assert(self.keys().len() == node_count);
            lemma_last_write_wins(self.keys(), *key);
        }
        let start_node = &self.nodes[start_point_index];
        let closest_neighbors = start_node.layer.l0();
        let ghost start = start_point_index as int;
        let ghost list = self.neighbors(start);

        /* Then walk its neighbors, nearest first, and keep what the filter lets through */
        let mut result: Vec<&T> = Vec::new();
        let ghost mut slots: Seq<int> = Seq::empty();
        let mut slot: usize = 0;
        while slot < L0 && result.len() < max_results
            invariant
                self.wf(),
                0 <= start < self.len(),
                list == self.neighbors(start),
                closest_neighbors@ == list,
                filter matches Some(f) ==> forall|position: int|
                    0 <= position < self.len() ==> f.requires((&#[trigger] self.payload(position),)),
                slot <= L0,
                slots.len() == result@.len(),
                result@.len() <= max_results,
                result@.len() <= slot,
                filter is None ==> result@.len() == slot,
                forall|i: int|
                    0 <= i < slots.len() ==> {
                        &&& 0 <= #[trigger] slots[i] < slot
                        &&& *result@[i] == self.payload(list[slots[i]] as int)
                        &&& verdict(filter, result@[i], true)
                    },
                filter is None ==> forall|i: int| 0 <= i < slots.len() ==> #[trigger] slots[i] == i,
                forall|i: int, j: int| 0 <= i < j < slots.len() ==> #[trigger] slots[i] < #[trigger] slots[j],
                forall|s: int|
                    0 <= s < slot && !slots.contains(s) ==> verdict(
                        filter,
                        &self.payload(#[trigger] list[s] as int),
                        false,
                    ),
                result@.len() == max_results && max_results > 0 ==> slots.len() > 0 && slots.last() + 1
                    == slot,
            decreases L0 - slot,
        {
            let neighbor_index = closest_neighbors[slot];
            assert(list[slot as int] < self.len());
            let data = &self.nodes[neighbor_index].data;
            assert(*data == self.payload(neighbor_index as int));
            let keep = match &filter {
                Some(f) => f(data),
                None => true,
            };
            if keep {
                let ghost before = slots;
                result.push(data);
                proof {
                    slots = slots.push(slot as int);
                    assert forall|s: int| 0 <= s < slot + 1 && !slots.contains(s) implies verdict(
                        filter,
                        &self.payload(#[trigger] list[s] as int),
                        false,
                    ) by {
                        assert(slots[before.len() as int] == slot);
                        if before.contains(s) {
                            let m = choose|m: int| 0 <= m < before.len() && before[m] == s;
                            assert(slots[m] == s);
                        }
                    }
                }
            } else {
                proof {
                    assert forall|s: int| 0 <= s < slot + 1 && !slots.contains(s) implies verdict(
                        filter,
                        &self.payload(#[trigger] list[s] as int),
                        false,
                    ) by {}
                }
            }
            slot += 1;
        }
        proof {
            assert(self.picks(start, filter, max_results as int, slots, result@));
            if result@.len() > 0 {
                assert(0 <= slots[0]);
                assert(verdict(filter, result@[0], true));
            }
        }
        Some(result)
    }
}

/// In the map from keys to positions a key is found when some position holds
/// it, and it then leads to the last position that does.
pub proof fn lemma_last_write_wins<K>(keys: Seq<K>, key: K)
    requires
        keys.len() <= usize::MAX,
    ensures
        positions_by_key(keys).contains_key(key) <==> keys.contains(key),
        positions_by_key(keys).contains_key(key) ==> {
            let position = positions_by_key(keys)[key] as int;
            &&& 0 <= position < keys.len()
            &&& keys[position] == key
            &&& forall|later: int| position < later < keys.len() ==> keys[later] != key
        },
    decreases keys.len(),
{
    if keys.len() > 0 {
        let front = keys.drop_last();
        lemma_last_write_wins(front, key);
        assert forall|later: int| 0 <= later < front.len() implies front[later] == keys[later] by {}
        if keys.last() != key {
            if keys.contains(key) {
                let i = choose|i: int| 0 <= i < keys.len() && keys[i] == key;
                assert(front[i] == key);
            }
            if front.contains(key) {
                let i = choose|i: int| 0 <= i < front.len() && front[i] == key;
                assert(keys[i] == key);
            }
        } else {
            assert(keys[keys.len() - 1] == key);
        }
    }
}

/// In a built index every neighbor list is full, holds positions of the
/// index other than its owner's, none of them twice, and ascends by distance
/// from its owner.
pub proof fn lemma_neighbor_lists<K, T, const L0: usize, const L1: usize, const L2: usize, const L3: usize>(
    index: &Hsnw<K, T, L0, L1, L2, L3>,
    position: int,
)
    requires
        index.wf(),
        0 <= position < index.len(),
    ensures
        index.neighbors(position).len() == L0,
        index.neighbors(position).no_duplicates(),
        forall|k: int|
            0 <= k < L0 ==> 0 <= #[trigger] index.neighbors(position)[k] < index.len()
                && index.neighbors(position)[k] != position,
        forall|k: int, l: int|
            0 <= k < l < L0 ==> index.distances(position)[#[trigger] index.neighbors(position)[k] as int]
                <= index.distances(position)[#[trigger] index.neighbors(position)[l] as int],
{
    let list = index.neighbors(position);
    assert(nearest(index.distances(position), position, index.len(), list));
    lemma_ascending(index.distances(position), list);
}

/// In an index of one point more than a neighbor list holds, every list
/// holds every other position.
pub proof fn lemma_complete_graph<K, T, const L0: usize, const L1: usize, const L2: usize, const L3: usize>(
    index: &Hsnw<K, T, L0, L1, L2, L3>,
    position: int,
)
    requires
        index.wf(),
        index.len() == L0 + 1,
        0 <= position < index.len(),
    ensures
        forall|other: int|
            0 <= other < index.len() && other != position ==> #[trigger] index.neighbors(position).contains(
                other as usize,
            ),
{
    let list = index.neighbors(position);
    assert(nearest(index.distances(position), position, index.len(), list));
    lemma_ascending(index.distances(position), list);
    lemma_one_short_is_complete(position, index.len(), list);
}

/// Two built indices over the same distances have the same neighbor lists.
pub proof fn lemma_lists_follow_from_distances<
    K,
    T,
    const L0: usize,
    const L1: usize,
    const L2: usize,
    const L3: usize,
>(first: &Hsnw<K, T, L0, L1, L2, L3>, second: &Hsnw<K, T, L0, L1, L2, L3>, position: int)
    requires
        first.wf(),
        second.wf(),
        first.len() == second.len(),
        0 <= position < first.len(),
        first.distances(position) == second.distances(position),
    ensures
        first.neighbors(position) == second.neighbors(position),
{
    assert(nearest(first.distances(position), position, first.len(), first.neighbors(position)));
    assert(nearest(second.distances(position), position, second.len(), second.neighbors(position)));
    lemma_nearest_is_unique(
        first.distances(position),
        position,
        first.len(),
        first.neighbors(position),
        second.neighbors(position),
    );
}

/// Two pickings from one neighbor list, under a filter that never answers a
/// payload both ways, took the same slot at place `place`.
pub proof fn lemma_picks_agree<
    K,
    T,
    F: Fn(&T) -> bool,
    const L0: usize,
    const L1: usize,
    const L2: usize,
    const L3: usize,
>(
    index: &Hsnw<K, T, L0, L1, L2, L3>,
    start: int,
    filter: Option<F>,
    max: int,
    first: (Seq<int>, Seq<&T>),
    second: (Seq<int>, Seq<&T>),
    place: int,
)
    requires
        forall|payload: &T| !(verdict(filter, payload, true) && verdict(filter, payload, false)),
        index.picks(start, filter, max, first.0, first.1),
        index.picks(start, filter, max, second.0, second.1),
        0 <= place < first.0.len(),
        0 <= place < second.0.len(),
    ensures
        first.0[place] == second.0[place],
    decreases place,
{
    assert forall|k: int| 0 <= k < place implies first.0[k] == second.0[k] by {
        lemma_picks_agree(index, start, filter, max, first, second, k);
    }
    let list = index.neighbors(start);
    let a = first.0[place];
    let b = second.0[place];
    if a < b {
        lemma_passed_over(second.0, place, a);
        assert(second.0[place] <= second.0.last());
        assert(verdict(filter, first.1[place], true));
        assert(verdict(filter, &index.payload(list[a] as int), false));
    } else if b < a {
        lemma_passed_over(first.0, place, b);
        assert(first.0[place] <= first.0.last());
        assert(verdict(filter, second.1[place], true));
        assert(verdict(filter, &index.payload(list[b] as int), false));
    }
}

/// An ascending list of slots does not hold a slot that lies between its
/// entries before `place` and those from `place` on.
proof fn lemma_passed_over(slots: Seq<int>, place: int, slot: int)
    requires
        forall|i: int, j: int| 0 <= i < j < slots.len() ==> #[trigger] slots[i] < #[trigger] slots[j],
        0 <= place <= slots.len(),
        place > 0 ==> slots[place - 1] < slot,
        place < slots.len() ==> slot < slots[place],
    ensures
        !slots.contains(slot),
        place < slots.len() ==> slots[place] <= slots.last(),
{
    if slots.contains(slot) {
        let m = choose|m: int| 0 <= m < slots.len() && slots[m] == slot;
        if m < place - 1 {
            assert(slots[m] < slots[place - 1]);
        } else if m > place {
            assert(slots[place] < slots[m]);
        }
    }
    if place < slots.len() - 1 {
        assert(slots[place] < slots[slots.len() - 1]);
    }
}

/// Under a filter that never answers a payload both ways, what a query
/// picks is determined by the neighbor list, the filter and the bound.
pub proof fn lemma_picks_are_unique<
    K,
    T,
    F: Fn(&T) -> bool,
    const L0: usize,
    const L1: usize,
    const L2: usize,
    const L3: usize,
>(
    index: &Hsnw<K, T, L0, L1, L2, L3>,
    start: int,
    filter: Option<F>,
    max: int,
    first: (Seq<int>, Seq<&T>),
    second: (Seq<int>, Seq<&T>),
)
    requires
        forall|payload: &T| !(verdict(filter, payload, true) && verdict(filter, payload, false)),
        index.picks(start, filter, max, first.0, first.1),
        index.picks(start, filter, max, second.0, second.1),
    ensures
        first == second,
{
    let list = index.neighbors(start);
    assert forall|k: int| 0 <= k < first.0.len() && k < second.0.len() implies first.0[k] == second.0[k] by {
        lemma_picks_agree(index, start, filter, max, first, second, k);
    }
    let shorter = first.0.len() as int;
    if first.0.len() < second.0.len() {
        let extra = second.0[shorter];
        assert(0 <= extra < L0);
        lemma_passed_over(first.0, shorter, extra);
        assert(verdict(filter, second.1[shorter], true));
        assert(verdict(filter, &index.payload(list[extra] as int), false));
    } else if second.0.len() < first.0.len() {
        let at = second.0.len() as int;
        let extra = first.0[at];
        assert(0 <= extra < L0);
        lemma_passed_over(second.0, at, extra);
        assert(verdict(filter, first.1[at], true));
        assert(verdict(filter, &index.payload(list[extra] as int), false));
    }
    assert(first.0 =~= second.0);
    assert forall|k: int| 0 <= k < first.1.len() implies first.1[k] == second.1[k] by {
        assert(first.0[k] == second.0[k]);
    }
    assert(first.1 =~= second.1);
}

} // verus!
