//! The two-tier price ladder.
//!
//! The primary tier keeps the `MAX_SIZE` smallest live price levels as leaf
//! records in ascending key order; the preempt tier holds every higher level
//! in an `ahash` map, together with eagerly maintained bounds and the routing
//! threshold. The whole ladder is, observably, one finite map from price to
//! quantity: every operation's contract is stated over that map (`self@`) and
//! over the key-sorted entry sequence it determines.
use vstd::prelude::*;

use crate::extmap::map_contents;
use crate::extmap::map_get;
use crate::extmap::map_insert;
use crate::extmap::map_keys;
use crate::extmap::map_len;
use crate::extmap::map_new;
use crate::extmap::map_remove;
use crate::seqmap::asc_entries;
use crate::seqmap::buy_left;
use crate::seqmap::has_key;
use crate::seqmap::key_sorted;
use crate::seqmap::keys_sorted;
use crate::seqmap::lemma_entry_insert;
use crate::seqmap::lemma_entry_remove;
use crate::seqmap::lemma_entry_update;
use crate::seqmap::lemma_exists_asc;
use crate::seqmap::lemma_sat_add_assoc;
use crate::seqmap::lemma_to_map_bounds;
use crate::seqmap::lemma_to_map_dom;
use crate::seqmap::lemma_to_map_index;
use crate::seqmap::lemma_to_map_len;
use crate::seqmap::sat_add64;
use crate::seqmap::sat_mul64;
use crate::seqmap::seq_cost;
use crate::seqmap::to_map;

verus! {

/// Largest number of live entries the primary tier may hold.
pub const MAX_SIZE: usize = 4096;

/// A leaf record of the ladder: one live price level. In the trie view of the
/// key space every live key ends in a leaf; the primary tier keeps its leaves
/// directly, in ascending key order.
#[derive(Clone, Copy, Debug)]
pub struct LeafNode {
    /// The price.
    pub key: u32,
    /// The aggregate quantity at that price; never zero for a live leaf.
    pub value: u64,
}

impl LeafNode {
    /// A fresh leaf for one price level.
    pub fn new(key: u32, value: u64) -> (l: LeafNode)
        ensures
            l.key == key,
            l.value == value,
    {
        LeafNode { key, value }
    }
}

/// The bounded order-book price ladder.
pub struct Glass {
    /// Primary tier: live leaves in strictly ascending key order.
    primary: Vec<LeafNode>,
    /// Preempt tier: the overflow levels, keyed by price.
    preempt: ahash::AHashMap<u32, u64>,
    /// Smallest preempt key; `u32::MAX` when the preempt tier is empty.
    preempt_min: u32,
    /// Largest preempt key; `0` when the preempt tier is empty.
    preempt_max: u32,
    /// Routing threshold: keys below it belong to the primary tier. Equals
    /// `preempt_min` while the preempt tier is non-empty, else `u32::MAX`.
    thres: u32,
}

impl Glass {
    /// The primary tier's entries in ascending key order.
    pub closed spec fn prim(self) -> Seq<(u32, u64)> {
        self.primary@.map_values(|l: LeafNode| (l.key, l.value))
    }

    /// The primary tier as a map.
    pub closed spec fn pmap(self) -> Map<u32, u64> {
        to_map(self.prim())
    }

    /// The preempt tier as a map.
    pub closed spec fn pemap(self) -> Map<u32, u64> {
        map_contents(self.preempt)
    }

    /// The routing threshold.
    pub closed spec fn spec_thres(self) -> u32 {
        self.thres
    }

    /// The cached smallest preempt key.
    pub closed spec fn spec_preempt_min(self) -> u32 {
        self.preempt_min
    }

    /// The cached largest preempt key.
    pub closed spec fn spec_preempt_max(self) -> u32 {
        self.preempt_max
    }

    /// The primary tier is sorted, within capacity, and all-live.
    pub closed spec fn prim_wf(self) -> bool {
        &&& key_sorted(self.prim())
        &&& self.primary@.len() <= MAX_SIZE
        &&& forall|i: int|
            0 <= i < self.primary@.len() ==> (#[trigger] self.primary@[i]).value != 0
    }

    /// The preempt tier is finite and all-live, and the cached bounds and
    /// threshold describe it exactly.
    pub closed spec fn pe_wf(self) -> bool {
        &&& self.pemap().dom().finite()
        &&& forall|k: u32|
            #[trigger] self.pemap().dom().contains(k) ==> self.pemap()[k] != 0
                && self.preempt_min <= k <= self.preempt_max
        &&& (self.pemap().dom().is_empty() ==> self.preempt_min == u32::MAX
            && self.preempt_max == 0 && self.thres == u32::MAX)
        &&& (!self.pemap().dom().is_empty() ==> self.pemap().dom().contains(self.preempt_min)
            && self.pemap().dom().contains(self.preempt_max) && self.thres == self.preempt_min)
    }

    /// While the preempt tier holds anything, the primary tier is full and
    /// every primary key lies below the threshold.
    pub closed spec fn tiers_wf(self) -> bool {
        !self.pemap().dom().is_empty() ==> self.primary@.len() == MAX_SIZE && forall|i: int|
            0 <= i < self.primary@.len() ==> (#[trigger] self.primary@[i]).key < self.preempt_min
    }

    /// The ladder's invariant.
    pub closed spec fn wf(self) -> bool {
        self.prim_wf() && self.pe_wf() && self.tiers_wf()
    }

    /// Whether a key is routed to the primary tier.
    pub closed spec fn routes_primary(self, key: u32) -> bool {
        self.pemap().dom().is_empty() || key < self.thres
    }
}

impl View for Glass {
    type V = Map<u32, u64>;

    /// The whole ladder as one map from price to quantity.
    closed spec fn view(&self) -> Map<u32, u64> {
        self.pmap().union_prefer_right(self.pemap())
    }
}

impl Default for Glass {
    /// An empty ladder.
    fn default() -> (g: Glass)
        ensures
            g.wf(),
            g@ == Map::<u32, u64>::empty(),
    {
        Glass::new()
    }
}

impl Glass {
    /// What the split into tiers means for the one-map view: the tiers are
    /// disjoint, the view is their union, and each value is live.
    pub proof fn lemma_tiers(self)
        requires
            self.wf(),
        ensures
            self@.dom().finite(),
            self@.dom() =~= self.pmap().dom().union(self.pemap().dom()),
            forall|k: u32|
                #[trigger] self.pmap().dom().contains(k) ==> self@.dom().contains(k)
                    && self@[k] == self.pmap()[k] && !self.pemap().dom().contains(k),
            forall|k: u32|
                #[trigger] self.pemap().dom().contains(k) ==> self@.dom().contains(k)
                    && self@[k] == self.pemap()[k] && k >= self.spec_thres(),
            forall|k: u32| #[trigger] self@.dom().contains(k) ==> self@[k] != 0,
            self.pmap().dom().finite(),
            self.pmap().dom().len() == self.prim().len(),
            self.pmap().dom().len() <= MAX_SIZE,
            !self.pemap().dom().is_empty() ==> self.pmap().dom().len() == MAX_SIZE
                && self.pemap().dom().contains(self.spec_thres()),
            forall|k: u32|
                !self.pemap().dom().is_empty() && #[trigger] self.pmap().dom().contains(k) ==> k
                    < self.spec_thres(),
    {
        lemma_to_map_dom(self.prim());
        lemma_to_map_len(self.prim());
        assert(self.pmap().dom().union(self.pemap().dom()).finite());
        assert(self@.dom() =~= self.pmap().dom().union(self.pemap().dom()));
        assert forall|k: u32| #[trigger] self.pmap().dom().contains(k)
            implies !self.pemap().dom().contains(k) && self@[k] == self.pmap()[k] by {
            let i = choose|i: int| 0 <= i < self.prim().len() && (#[trigger] self.prim()[i]).0 == k;
            assert(self.primary@[i].key == k);
        }
        assert forall|k: u32| #[trigger] self.pmap().dom().contains(k) implies self@[k] != 0 by {
            let i = choose|i: int| 0 <= i < self.prim().len() && (#[trigger] self.prim()[i]).0 == k;
            lemma_to_map_index(self.prim(), i);
        }
        assert forall|k: u32|
            !self.pemap().dom().is_empty() && #[trigger] self.pmap().dom().contains(k) implies k
            < self.spec_thres() by {
            let i = choose|i: int| 0 <= i < self.prim().len() && (#[trigger] self.prim()[i]).0 == k;
            assert(self.primary@[i].key < self.preempt_min);
        }
    }

    /// An empty ladder.
    pub fn new() -> (g: Glass)
        ensures
            g.wf(),
            g@ == Map::<u32, u64>::empty(),
            g.pmap() == Map::<u32, u64>::empty(),
            g.pemap() == Map::<u32, u64>::empty(),
    {
        let g = Glass {
            primary: Vec::new(),
            preempt: map_new(),
            preempt_min: u32::MAX,
            preempt_max: 0,
            thres: u32::MAX,
        };
        proof {
            assert(g.prim() =~= Seq::<(u32, u64)>::empty());
            assert(g.pmap() =~= Map::<u32, u64>::empty());
            assert(g@ =~= Map::<u32, u64>::empty());
        }
        g
    }

    /// How many levels the primary tier holds: the whole book while it fits,
    /// else exactly `MAX_SIZE` (the rest lives in the preempt tier).
    pub fn glass_size(&self) -> (n: usize)
        requires
            self.wf(),
        ensures
            n == self.pmap().dom().len(),
            self@.dom().len() <= MAX_SIZE ==> n == self@.dom().len(),
            self@.dom().len() > MAX_SIZE ==> n == MAX_SIZE,
    {
        proof {
            self.lemma_tiers();
            if self.pemap().dom().is_empty() {
                assert(self@ =~= self.pmap());
            } else {
                vstd::set_lib::lemma_len_subset(self.pmap().dom(), self@.dom());
            }
        }
        self.primary.len()
    }

    /// Route a key: true sends it to the primary tier, false to the preempt
    /// tier. A present key is always routed to the tier that holds it.
    fn check_bounds_and_thres(&self, key: u32) -> (r: bool)
        requires
            self.wf(),
        ensures
            r == self.routes_primary(key),
            r ==> !self.pemap().dom().contains(key),
            !r ==> !self.pmap().dom().contains(key),
    {
        proof {
            self.lemma_tiers();
            lemma_to_map_dom(self.prim());
            if !self.routes_primary(key) {
                if self.pmap().dom().contains(key) {
                    let i = choose|i: int|
                        0 <= i < self.prim().len() && (#[trigger] self.prim()[i]).0 == key;
                    assert(self.primary@[i].key < self.preempt_min);
                }
            }
        }
        let n = map_len(&self.preempt);
        n == 0 || key < self.thres
    }

    /// The index of the first primary entry whose key is not below `key`.
    fn primary_lower_bound(&self, key: u32) -> (i: usize)
        requires
            self.prim_wf(),
        ensures
            i <= self.primary@.len(),
            forall|j: int| 0 <= j < i ==> (#[trigger] self.prim()[j]).0 < key,
            forall|j: int| i <= j < self.primary@.len() ==> (#[trigger] self.prim()[j]).0 >= key,
    {
        let mut lo: usize = 0;
        let mut hi: usize = self.primary.len();
        while lo < hi
            invariant
                lo <= hi <= self.primary@.len(),
                self.prim_wf(),
                forall|j: int| 0 <= j < lo ==> (#[trigger] self.prim()[j]).0 < key,
                forall|j: int|
                    hi <= j < self.primary@.len() ==> (#[trigger] self.prim()[j]).0 >= key,
            decreases hi - lo,
        {
            let mid = lo + (hi - lo) / 2;
            if self.primary[mid].key < key {
                proof {
                    assert forall|j: int| 0 <= j < mid + 1 implies (#[trigger] self.prim()[j]).0
                        < key by {
                        if j < mid {
                            assert(self.prim()[j].0 < self.prim()[mid as int].0);
                        }
                    }
                }
                lo = mid + 1;
            } else {
                proof {
                    assert forall|j: int|
                        mid <= j < self.primary@.len() implies (#[trigger] self.prim()[j]).0
                        >= key by {
                        if j > mid {
                            assert(self.prim()[mid as int].0 < self.prim()[j].0);
                        }
                    }
                }
                hi = mid;
            }
        }
        lo
    }

    /// The index of the primary entry holding `key`, if one does.
    fn primary_find(&self, key: u32) -> (r: Option<usize>)
        requires
            self.prim_wf(),
        ensures
            match r {
                Some(i) => i < self.primary@.len() && self.prim()[i as int].0 == key
                    && self.pmap().dom().contains(key)
                    && self.pmap()[key] == self.prim()[i as int].1,
                None => !self.pmap().dom().contains(key),
            },
    {
        proof {
            lemma_to_map_dom(self.prim());
        }
        let i = self.primary_lower_bound(key);
        if i < self.primary.len() && self.primary[i].key == key {
            proof {
                lemma_to_map_index(self.prim(), i as int);
            }
            Some(i)
        } else {
            proof {
                if has_key(self.prim(), key) {
                    let j = choose|j: int|
                        0 <= j < self.prim().len() && (#[trigger] self.prim()[j]).0 == key;
                    assert(j >= i);
                    if i < self.primary@.len() {
                        assert(self.prim()[i as int].0 >= key);
                        if j > i {
                            assert(self.prim()[i as int].0 < self.prim()[j].0);
                        }
                    }
                }
            }
            None
        }
    }

    /// Look a key up in the primary tier alone.
    pub fn glass_get(&self, key: u32) -> (r: Option<u64>)
        requires
            self.prim_wf(),
        ensures
            r == (if self.pmap().dom().contains(key) {
                Some(self.pmap()[key])
            } else {
                None::<u64>
            }),
    {
        match self.primary_find(key) {
            Some(i) => Some(self.primary[i].value),
            None => None,
        }
    }

    /// Recompute the preempt tier's cached minimum, maximum and threshold
    /// from its keys.
    fn update_preempt_bounds(&mut self)
        requires
            old(self).pemap().dom().finite(),
            forall|k: u32|
                #[trigger] old(self).pemap().dom().contains(k) ==> old(self).pemap()[k] != 0,
        ensures
            final(self).pe_wf(),
            final(self).primary == old(self).primary,
            final(self).pemap() == old(self).pemap(),
    {
        let n = map_len(&self.preempt);
        if n == 0 {
            proof {
                self.pemap().dom().lemma_len0_is_empty();
            }
            self.preempt_min = u32::MAX;
            self.preempt_max = 0;
            self.thres = u32::MAX;
        } else {
            let keys = map_keys(&self.preempt);
            proof {
                if keys@.len() == 0 {
                    assert(self.pemap().dom() =~= Set::<u32>::empty());
                }
                assert(keys@.to_set().contains(keys@[0]));
            }
            let mut mn: u32 = keys[0];
            let mut mx: u32 = keys[0];
            let mut i: usize = 1;
            while i < keys.len()
                invariant
                    1 <= i <= keys@.len(),
                    keys@.to_set() == self.pemap().dom(),
                    self.pemap().dom().contains(mn),
                    self.pemap().dom().contains(mx),
                    forall|j: int| 0 <= j < i ==> mn <= #[trigger] keys@[j] <= mx,
                decreases keys@.len() - i,
            {
                let k = keys[i];
                proof {
                    assert(keys@.to_set().contains(keys@[i as int]));
                }
                if k < mn {
                    mn = k;
                }
                if k > mx {
                    mx = k;
                }
                i += 1;
            }
            proof {
                assert forall|k: u32| #[trigger] self.pemap().dom().contains(k)
                    implies mn <= k <= mx by {
                    assert(keys@.to_set().contains(k));
                    let j = choose|j: int| 0 <= j < keys@.len() && keys@[j] == k;
                    assert(mn <= keys@[j] <= mx);
                }
            }
            self.preempt_min = mn;
            self.preempt_max = mx;
            self.thres = mn;
        }
    }

    /// The lowest live level of the primary tier.
    pub fn glass_min(&self) -> (r: Option<(u32, u64)>)
        requires
            self.prim_wf(),
        ensures
            match r {
                Some(p) => self.pmap().dom().contains(p.0) && self.pmap()[p.0] == p.1 && p.1 != 0
                    && forall|k: u32| #[trigger] self.pmap().dom().contains(k) ==> p.0 <= k,
                None => self.pmap().dom().is_empty(),
            },
    {
        proof {
            lemma_to_map_len(self.prim());
        }
        if self.primary.len() > 0 {
            proof {
                lemma_to_map_index(self.prim(), 0);
                crate::seqmap::lemma_to_map_bounds(self.prim());
            }
            let l = self.primary[0];
            Some((l.key, l.value))
        } else {
            proof {
                self.pmap().dom().lemma_len0_is_empty();
            }
            None
        }
    }

    /// The highest live level of the primary tier.
    pub fn glass_max(&self) -> (r: Option<(u32, u64)>)
        requires
            self.prim_wf(),
        ensures
            match r {
                Some(p) => self.pmap().dom().contains(p.0) && self.pmap()[p.0] == p.1 && p.1 != 0
                    && forall|k: u32| #[trigger] self.pmap().dom().contains(k) ==> k <= p.0,
                None => self.pmap().dom().is_empty(),
            },
    {
        proof {
            lemma_to_map_len(self.prim());
        }
        if self.primary.len() > 0 {
            proof {
                lemma_to_map_index(self.prim(), self.primary@.len() - 1);
                crate::seqmap::lemma_to_map_bounds(self.prim());
            }
            let l = self.primary[self.primary.len() - 1];
            Some((l.key, l.value))
        } else {
            proof {
                self.pmap().dom().lemma_len0_is_empty();
            }
            None
        }
    }

    /// Write one level into the primary tier: update the leaf in place when
    /// the key is live there, else splice a fresh leaf in at its ordered
    /// position.
    pub fn glass_insert(&mut self, key: u32, value: u64)
        requires
            old(self).prim_wf(),
            value != 0,
            old(self).pmap().dom().contains(key) || old(self).prim().len() < MAX_SIZE,
        ensures
            final(self).prim_wf(),
            final(self).pmap() == old(self).pmap().insert(key, value),
            old(self).pmap().dom().contains(key) ==> final(self).prim().len() == old(
                self,
            ).prim().len(),
            !old(self).pmap().dom().contains(key) ==> final(self).prim().len() == old(
                self,
            ).prim().len() + 1,
            final(self).pemap() == old(self).pemap(),
            final(self).spec_preempt_min() == old(self).spec_preempt_min(),
            final(self).spec_preempt_max() == old(self).spec_preempt_max(),
            final(self).spec_thres() == old(self).spec_thres(),
    {
        proof {
            lemma_to_map_dom(self.prim());
        }
        let i = self.primary_lower_bound(key);
        if i < self.primary.len() && self.primary[i].key == key {
            proof {
                lemma_entry_update(self.prim(), i as int, value);
                lemma_to_map_index(self.prim(), i as int);
            }
            let e = &mut self.primary[i];
            e.value = value;
            proof {
                assert(self.prim() =~= old(self).prim().update(i as int, (key, value)));
            }
        } else {
            proof {
                assert forall|j: int|
                    i <= j < self.primary@.len() implies key < (#[trigger] self.prim()[j]).0 by {
                    if j == i {
                        assert(self.prim()[j].0 >= key);
                        assert(self.prim()[j].0 != key);
                    } else {
                        assert(self.prim()[i as int].0 < self.prim()[j].0);
                        assert(self.prim()[i as int].0 >= key);
                    }
                }
                if has_key(self.prim(), key) {
                    let j = choose|j: int|
                        0 <= j < self.prim().len() && (#[trigger] self.prim()[j]).0 == key;
                }
                lemma_entry_insert(self.prim(), i as int, key, value);
            }
            self.primary.insert(i, LeafNode::new(key, value));
            proof {
                assert(self.prim() =~= old(self).prim().insert(i as int, (key, value)));
            }
        }
    }

    /// Take one level out of the primary tier and return its quantity.
    pub fn glass_remove(&mut self, key: u32) -> (r: Option<u64>)
        requires
            old(self).prim_wf(),
        ensures
            final(self).prim_wf(),
            final(self).pmap() == old(self).pmap().remove(key),
            r == (if old(self).pmap().dom().contains(key) {
                Some(old(self).pmap()[key])
            } else {
                None::<u64>
            }),
            old(self).pmap().dom().contains(key) ==> final(self).prim().len() + 1 == old(
                self,
            ).prim().len(),
            !old(self).pmap().dom().contains(key) ==> *final(self) == *old(self),
            final(self).pemap() == old(self).pemap(),
            final(self).spec_preempt_min() == old(self).spec_preempt_min(),
            final(self).spec_preempt_max() == old(self).spec_preempt_max(),
            final(self).spec_thres() == old(self).spec_thres(),
    {
        match self.primary_find(key) {
            Some(i) => {
                proof {
                    lemma_entry_remove(self.prim(), i as int);
                }
                let l = self.primary.remove(i);
                proof {
                    assert(self.prim() =~= old(self).prim().remove(i as int));
                }
                Some(l.value)
            },
            None => {
                proof {
                    lemma_to_map_dom(self.prim());
                    assert(self.pmap().remove(key) =~= self.pmap());
                }
                None
            },
        }
    }

    /// The preempt tier's keys in ascending order, rebuilt from the map.
    fn sorted_preempt_keys(&self) -> (ks: Vec<u32>)
        requires
            self.pemap().dom().finite(),
        ensures
            keys_sorted(ks@),
            ks@.to_set() == self.pemap().dom(),
            ks@.len() == self.pemap().dom().len(),
    {
        let keys = map_keys(&self.preempt);
        let mut out: Vec<u32> = Vec::new();
        let mut i: usize = 0;
        while i < keys.len()
            invariant
                i <= keys@.len(),
                keys@.no_duplicates(),
                keys@.to_set() == self.pemap().dom(),
                keys_sorted(out@),
                out@.to_set() == keys@.take(i as int).to_set(),
            decreases keys@.len() - i,
        {
            let x = keys[i];
            proof {
                assert(!keys@.take(i as int).contains(keys@[i as int]));
                assert(!out@.to_set().contains(keys@[i as int]));
            }
            let mut p: usize = 0;
            while p < out.len() && out[p] < x
                invariant
                    p <= out@.len(),
                    forall|j: int| 0 <= j < p ==> out@[j] < x,
                    keys_sorted(out@),
                decreases out@.len() - p,
            {
                p += 1;
            }
            proof {
                assert forall|j: int| p <= j < out@.len() implies x < out@[j] by {
                    assert(out@.contains(out@[p as int]));
                    assert(out@[p as int] != x);
                    if j > p {
                        assert(out@[p as int] < out@[j]);
                    }
                }
            }
            let ghost out0 = out@;
            out.insert(p, x);
            proof {
                out0.insert_ensures(p as int, x);
                assert(keys_sorted(out@)) by {
                    assert forall|a: int, b: int|
                        #![trigger out@[a], out@[b]]
                        0 <= a < b < out@.len() implies out@[a] < out@[b] by {
                        if b < p {
                            assert(out@[a] == out0[a] && out@[b] == out0[b]);
                        } else if b == p {
                            assert(out@[a] == out0[a] && out@[b] == x);
                        } else if a < p {
                            assert(out@[a] == out0[a] && out@[b] == out0[b - 1]);
                            assert(out0[a] < x);
                            assert(x < out0[b - 1]);
                        } else if a == p {
                            assert(out@[a] == x && out@[b] == out0[b - 1]);
                        } else {
                            assert(out@[a] == out0[a - 1] && out@[b] == out0[b - 1]);
                        }
                    }
                }
                assert(out@.to_set() =~= keys@.take(i + 1).to_set()) by {
                    assert(keys@.take(i + 1) =~= keys@.take(i as int).push(keys@[i as int]));
                    assert forall|y: u32| out@.contains(y) implies keys@.take(i + 1).contains(
                        y,
                    ) by {
                        let j = choose|j: int| 0 <= j < out@.len() && out@[j] == y;
                        if j == p {
                            assert(keys@.take(i + 1)[i as int] == y);
                        } else {
                            assert(out0.contains(y)) by {
                                if j < p {
                                    assert(out0[j] == y);
                                } else {
                                    assert(out0[j - 1] == y);
                                }
                            }
                            assert(out0.to_set().contains(y));
                            assert(keys@.take(i as int).contains(y));
                            let j2 = choose|j2: int|
                                0 <= j2 < keys@.take(i as int).len() && keys@.take(i as int)[j2]
                                    == y;
                            assert(keys@.take(i + 1)[j2] == y);
                        }
                    }
                    assert forall|y: u32| keys@.take(i + 1).contains(y) implies out@.contains(
                        y,
                    ) by {
                        let j2 = choose|j2: int|
                            0 <= j2 < keys@.take(i + 1).len() && #[trigger] keys@.take(i + 1)[j2]
                                == y;
                        if j2 == i {
                            assert(out@[p as int] == y);
                        } else {
                            assert(keys@.take(i as int)[j2] == y);
                            assert(keys@.take(i as int).contains(y));
                            assert(out0.to_set().contains(y));
                            let j = choose|j: int| 0 <= j < out0.len() && out0[j] == y;
                            if j < p {
                                assert(out@[j] == y);
                            } else {
                                assert(out@[j + 1] == y);
                            }
                        }
                    }
                }
            }
            i += 1;
        }
        proof {
            assert(keys@.take(keys@.len() as int) =~= keys@);
            assert forall|a: int, b: int| 0 <= a < out@.len() && 0 <= b < out@.len() && a != b
                implies out@[a] != out@[b] by {
                if a < b {
                    assert(out@[a] < out@[b]);
                } else {
                    assert(out@[b] < out@[a]);
                }
            }
            out@.unique_seq_to_set();
        }
        out
    }

    /// Refill the primary tier after it shrank: move the smallest preempt
    /// levels over until the primary is full or the preempt tier is drained.
    /// The book as a whole does not change.
    #[verifier::rlimit(100)]
    fn restructure(&mut self)
        requires
            old(self).prim_wf(),
            old(self).pe_wf(),
            !old(self).pemap().dom().is_empty() ==> forall|i: int|
                0 <= i < old(self).prim().len() ==> (#[trigger] old(self).prim()[i]).0 < old(
                    self,
                ).spec_preempt_min(),
        ensures
            final(self).wf(),
            final(self)@ == old(self)@,
    {
        proof {
            lemma_to_map_dom(self.prim());
            lemma_to_map_len(self.prim());
        }
        let sigma = self.primary.len();
        if sigma >= MAX_SIZE {
            proof {
                assert(self@ =~= old(self)@);
                if !self.pemap().dom().is_empty() {
                    assert forall|i: int| 0 <= i < self.primary@.len() implies (
                    #[trigger] self.primary@[i]).key < self.preempt_min by {
                        assert(self.prim()[i].0 < old(self).spec_preempt_min());
                    }
                }
            }
            return ;
        }
        let n = MAX_SIZE - sigma;
        let keys = self.sorted_preempt_keys();
        let take_n = if n < keys.len() {
            n
        } else {
            keys.len()
        };
        let ghost kk = keys@;
        let ghost p0 = old(self).prim();
        let ghost pe0 = old(self).pemap();
        let mut idx: usize = 0;
        proof {
            assert(kk.skip(0) =~= kk);
            assert(self.pemap().dom() =~= kk.skip(0).to_set());
        }
        while idx < take_n
            invariant
                kk == keys@,
                idx <= take_n <= kk.len(),
                take_n <= kk.len(),
                self.primary@.len() == p0.len() + idx,
                p0.len() + take_n <= MAX_SIZE,
                keys_sorted(kk),
                kk.to_set() == pe0.dom(),
                pe0.dom().finite(),
                forall|k: u32| #[trigger] pe0.dom().contains(k) ==> pe0[k] != 0,
                !pe0.dom().is_empty() ==> forall|i: int|
                    0 <= i < p0.len() ==> (#[trigger] p0[i]).0 < old(self).spec_preempt_min(),
                forall|k: u32|
                    #[trigger] pe0.dom().contains(k) ==> old(self).spec_preempt_min() <= k,
                key_sorted(p0),
                forall|i: int| 0 <= i < p0.len() ==> (#[trigger] p0[i]).1 != 0,
                self.prim().len() == p0.len() + idx,
                forall|j: int| 0 <= j < p0.len() ==> (#[trigger] self.prim()[j]) == p0[j],
                forall|j: int|
                    0 <= j < idx ==> (#[trigger] self.prim()[p0.len() + j]) == (kk[j], pe0[kk[j]]),
                self.pemap().dom() =~= kk.skip(idx as int).to_set(),
                forall|k: u32|
                    #[trigger] self.pemap().dom().contains(k) ==> self.pemap()[k] == pe0[k],
                self.pemap().dom().finite(),
            decreases take_n - idx,
        {
            let k = keys[idx];
            proof {
                assert(kk.skip(idx as int)[0] == kk[idx as int]);
                assert(kk.skip(idx as int).contains(kk[idx as int]));
            }
            let v = match map_remove(&mut self.preempt, k) {
                Some(v) => v,
                None => {
                    proof {
                        assert(false);
                    }
                    0
                },
            };
            let ghost pv0 = self.primary@;
            let ghost pr0 = self.prim();
            self.primary.push(LeafNode::new(k, v));
            proof {
                assert(self.primary@ == pv0.push(LeafNode { key: k, value: v }));
                assert forall|j: int| 0 <= j < pv0.len() implies (#[trigger] self.prim()[j])
                    == pr0[j] by {
                    assert(self.primary@[j] == pv0[j]);
                }
                assert(self.prim().len() == p0.len() + idx + 1);
                assert(self.prim()[p0.len() + idx] == (kk[idx as int], pe0[kk[idx as int]]));
                assert(self.pemap().dom() =~= kk.skip(idx + 1).to_set()) by {
                    assert forall|y: u32| kk.skip(idx + 1).contains(y) implies self.pemap(
                    ).dom().contains(y) by {
                        let j = choose|j: int|
                            0 <= j < kk.skip(idx + 1).len() && #[trigger] kk.skip(idx + 1)[j]
                                == y;
                        assert(kk[idx + 1 + j] == y);
                        assert(kk.skip(idx as int)[1 + j] == y);
                        assert(kk.skip(idx as int).contains(y));
                        assert(y != kk[idx as int]);
                    }
                    assert forall|y: u32| self.pemap().dom().contains(y) implies kk.skip(
                        idx + 1,
                    ).contains(y) by {
                        assert(kk.skip(idx as int).contains(y));
                        let j = choose|j: int|
                            0 <= j < kk.skip(idx as int).len() && #[trigger] kk.skip(
                                idx as int,
                            )[j] == y;
                        assert(kk[idx + j] == y);
                        assert(y != kk[idx as int]);
                        assert(j >= 1);
                        assert(kk.skip(idx + 1)[j - 1] == y);
                    }
                }
            }
            idx += 1;
        }
        let ghost moved = Seq::new(take_n as nat, |j: int| (kk[j], pe0[kk[j]]));
        proof {
            assert forall|a: int, b: int|
                0 <= a < p0.len() && 0 <= b < moved.len() implies (#[trigger] p0[a]).0 < (
            #[trigger] moved[b]).0 by {
                assert(kk.to_set().contains(kk[b]));
                assert(pe0.dom().contains(kk[b]));
                assert(p0[a].0 < old(self).spec_preempt_min());
            }
            assert forall|a: int, b: int| 0 <= a < b < moved.len() implies (
            #[trigger] moved[a]).0 < (#[trigger] moved[b]).0 by {
                assert(kk[a] < kk[b]);
            }
            crate::seqmap::lemma_entry_concat(p0, moved);
            assert(self.prim() =~= p0 + moved) by {
                assert forall|t: int| 0 <= t < self.prim().len() implies self.prim()[t] == (p0
                    + moved)[t] by {
                    if t < p0.len() {
                        assert(self.prim()[t] == p0[t]);
                    } else {
                        assert(self.prim()[p0.len() + (t - p0.len())] == (kk[t - p0.len()], pe0[kk[t - p0.len()]]));
                    }
                }
            }
        }
        proof {
            assert forall|k2: u32| #[trigger] self.pemap().dom().contains(k2) implies self.pemap(
            )[k2] != 0 by {
                assert(kk.skip(take_n as int).contains(k2));
                let j = choose|j: int|
                    0 <= j < kk.skip(take_n as int).len() && #[trigger] kk.skip(take_n as int)[j]
                        == k2;
                assert(kk[take_n + j] == k2);
                assert(kk.to_set().contains(k2));
            }
        }
        self.update_preempt_bounds();
        proof {
            lemma_to_map_dom(moved);
            lemma_to_map_dom(p0);
            assert forall|j: int| 0 <= j < moved.len() implies to_map(moved).dom().contains(
                (#[trigger] moved[j]).0,
            ) && to_map(moved)[moved[j].0] == moved[j].1 by {
                lemma_to_map_index(moved, j);
            }
            // The ladder as a whole is unchanged.
            assert(self.pmap() == to_map(p0).union_prefer_right(to_map(moved)));
            assert(self@ =~= old(self)@) by {
                assert forall|k: u32|
                    #![trigger self@.dom().contains(k)]
                    #![trigger old(self)@.dom().contains(k)]
                    self@.dom().contains(k) == old(self)@.dom().contains(k) && (self@.dom(
                    ).contains(k) ==> self@[k] == old(self)@[k]) by {
                    if self.pemap().dom().contains(k) {
                        // A key still in the preempt tier was there before, with
                        // the same quantity, and is in neither primary map.
                        assert(kk.skip(take_n as int).contains(k));
                        let j = choose|j: int|
                            0 <= j < kk.skip(take_n as int).len() && #[trigger] kk.skip(
                                take_n as int,
                            )[j] == k;
                        assert(kk[take_n + j] == k);
                        assert(kk.to_set().contains(k));
                        assert(pe0.dom().contains(k));
                        if to_map(moved).dom().contains(k) {
                            let a = choose|a: int|
                                0 <= a < moved.len() && (#[trigger] moved[a]).0 == k;
                            assert(kk[a] == kk[take_n + j]);
                            assert(false);
                        }
                        if to_map(p0).dom().contains(k) {
                            let a = choose|a: int|
                                0 <= a < p0.len() && (#[trigger] p0[a]).0 == k;
                            assert(p0[a].0 < old(self).spec_preempt_min());
                            assert(false);
                        }
                    }
                    if to_map(moved).dom().contains(k) {
                        // A moved key left the preempt tier for the primary,
                        // keeping its quantity.
                        let j = choose|j: int|
                            0 <= j < moved.len() && (#[trigger] moved[j]).0 == k;
                        assert(kk[j] == k);
                        assert(kk.to_set().contains(kk[j]));
                        assert(pe0.dom().contains(k));
                        assert(to_map(moved)[k] == moved[j].1);
                        if self.pemap().dom().contains(k) {
                            assert(false);
                        }
                        if to_map(p0).dom().contains(k) {
                            let a = choose|a: int|
                                0 <= a < p0.len() && (#[trigger] p0[a]).0 == k;
                            assert(p0[a].0 < old(self).spec_preempt_min());
                            assert(false);
                        }
                    }
                    if to_map(p0).dom().contains(k) {
                        // An old primary key stays primary with its quantity.
                        let a = choose|a: int| 0 <= a < p0.len() && (#[trigger] p0[a]).0 == k;
                        if pe0.dom().contains(k) {
                            assert(p0[a].0 < old(self).spec_preempt_min());
                            assert(false);
                        }
                        if self.pemap().dom().contains(k) {
                            assert(false);
                        }
                        if to_map(moved).dom().contains(k) {
                            assert(false);
                        }
                        lemma_to_map_index(p0, a);
                    }
                    if pe0.dom().contains(k) {
                        // Every old preempt key is still somewhere.
                        assert(kk.to_set().contains(k));
                        let j = choose|j: int| 0 <= j < kk.len() && kk[j] == k;
                        if j < take_n {
                            assert(moved[j].0 == k && moved[j].1 == pe0[k]);
                            lemma_to_map_index(moved, j);
                        } else {
                            assert(kk.skip(take_n as int)[j - take_n] == k);
                            assert(kk.skip(take_n as int).contains(k));
                        }
                    }
                }
            }
            assert(key_sorted(self.prim()));
            assert forall|i: int| 0 <= i < self.primary@.len() implies (
            #[trigger] self.primary@[i]).value != 0 by {
                assert(self.prim()[i].1 == self.primary@[i].value);
                if i < p0.len() {
                    assert(self.prim()[i] == p0[i]);
                } else {
                    assert(self.prim()[i] == moved[i - p0.len()]);
                    assert(kk.to_set().contains(kk[i - p0.len()]));
                    assert(pe0.dom().contains(kk[i - p0.len()]));
                }
            }
            // The tier split is well-formed again.
            if !self.pemap().dom().is_empty() {
                let w = choose|w: u32| self.pemap().dom().contains(w);
                assert(kk.skip(take_n as int).contains(w));
                assert(take_n < kk.len());
                assert(take_n == n);
                assert(self.primary@.len() == MAX_SIZE);
                assert forall|i: int| 0 <= i < self.primary@.len() implies (
                #[trigger] self.primary@[i]).key < self.spec_preempt_min() by {
                    let pm = self.spec_preempt_min();
                    assert(self.pemap().dom().contains(pm));
                    assert(kk.skip(take_n as int).contains(pm));
                    let jj = choose|jj: int|
                        0 <= jj < kk.skip(take_n as int).len() && #[trigger] kk.skip(
                            take_n as int,
                        )[jj] == pm;
                    assert(kk[take_n + jj] == pm);
                    let e = self.prim()[i];
                    assert(e.0 == self.primary@[i].key);
                    if i < p0.len() {
                        assert(kk.to_set().contains(kk[take_n + jj]));
                        assert(pe0.dom().contains(pm));
                        assert(e.0 < old(self).spec_preempt_min());
                        assert(old(self).spec_preempt_min() <= pm);
                    } else {
                        assert(e == (kk[i - p0.len()], pe0[kk[i - p0.len()]]));
                        assert(kk[i - p0.len()] < kk[take_n + jj]);
                    }
                }
            }
        }
    }

    /// Take a key's level out of whichever tier holds it and return its
    /// quantity. A removal that leaves the primary tier short is followed by
    /// a refill from the preempt tier.
    pub fn remove(&mut self, key: u32) -> (r: Option<u64>)
        requires
            old(self).wf(),
        ensures
            final(self).wf(),
            final(self)@ == old(self)@.remove(key),
            r == (if old(self)@.dom().contains(key) {
                Some(old(self)@[key])
            } else {
                None::<u64>
            }),
    {
        proof {
            old(self).lemma_tiers();
        }
        if self.check_bounds_and_thres(key) {
            let res = self.glass_remove(key);
            proof {
                assert(self@ =~= old(self)@.remove(key));
            }
            if res.is_some() && self.primary.len() < MAX_SIZE {
                proof {
                    lemma_to_map_dom(self.prim());
                    assert forall|i: int|
                        0 <= i < self.prim().len() && !self.pemap().dom().is_empty() implies (
                    #[trigger] self.prim()[i]).0 < self.spec_preempt_min() by {
                        assert(has_key(old(self).prim(), self.prim()[i].0)) by {
                            assert(self.pmap().dom().contains(self.prim()[i].0)) by {
                                lemma_to_map_index(self.prim(), i);
                            }
                            lemma_to_map_dom(old(self).prim());
                        }
                        let j = choose|j: int|
                            0 <= j < old(self).prim().len() && (#[trigger] old(self).prim()[j]).0
                                == self.prim()[i].0;
                        assert(old(self).primary@[j].key < old(self).spec_preempt_min());
                    }
                }
                self.restructure();
            } else {
                proof {
                    assert(res is None);
                    assert(self@ =~= old(self)@);
                    assert(old(self)@.remove(key) =~= old(self)@);
                }
            }
            res
        } else {
            let r = map_remove(&mut self.preempt, key);
            self.update_preempt_bounds();
            proof {
                assert(self@ =~= old(self)@.remove(key));
                if !self.pemap().dom().is_empty() {
                    assert(self.primary@.len() == MAX_SIZE);
                    assert forall|i: int| 0 <= i < self.primary@.len() implies (
                    #[trigger] self.primary@[i]).key < self.spec_preempt_min() by {
                        assert(self.pemap().dom().contains(self.spec_preempt_min()));
                        assert(old(self).pemap().dom().contains(self.spec_preempt_min()));
                        assert(self.primary@[i].key < old(self).spec_preempt_min());
                    }
                }
            }
            r
        }
    }

    /// Overwrite the quantity of a level that is live in the primary tier.
    /// Returns whether the key was live there.
    pub fn glass_set_value(&mut self, key: u32, value: u64) -> (r: bool)
        requires
            old(self).prim_wf(),
            value != 0,
        ensures
            final(self).prim_wf(),
            r == old(self).pmap().dom().contains(key),
            r ==> final(self).pmap() == old(self).pmap().insert(key, value),
            !r ==> *final(self) == *old(self),
            final(self).prim().len() == old(self).prim().len(),
            final(self).pemap() == old(self).pemap(),
            final(self).spec_preempt_min() == old(self).spec_preempt_min(),
            final(self).spec_preempt_max() == old(self).spec_preempt_max(),
            final(self).spec_thres() == old(self).spec_thres(),
    {
        match self.primary_find(key) {
            Some(i) => {
                proof {
                    lemma_entry_update(self.prim(), i as int, value);
                }
                let e = &mut self.primary[i];
                e.value = value;
                proof {
                    assert(self.prim() =~= old(self).prim().update(i as int, (key, value)));
                }
                true
            },
            None => false,
        }
    }

    /// Overwrite the quantity of a live level, in whichever tier holds it.
    fn set_value(&mut self, key: u32, value: u64)
        requires
            old(self).wf(),
            old(self)@.dom().contains(key),
            value != 0,
        ensures
            final(self).wf(),
            final(self)@ == old(self)@.insert(key, value),
    {
        proof {
            old(self).lemma_tiers();
        }
        if self.check_bounds_and_thres(key) {
            let _ = self.glass_set_value(key, value);
            proof {
                lemma_to_map_dom(self.prim());
                assert forall|i: int|
                    0 <= i < self.primary@.len() && !self.pemap().dom().is_empty() implies (
                #[trigger] self.primary@[i]).key < self.preempt_min by {
                    assert(has_key(self.prim(), self.prim()[i].0));
                    let k2 = self.prim()[i].0;
                    assert(self.pmap().dom().contains(k2));
                    assert(old(self).pmap().dom().contains(k2));
                    lemma_to_map_dom(old(self).prim());
                    let j = choose|j: int|
                        0 <= j < old(self).prim().len() && (#[trigger] old(self).prim()[j]).0
                            == k2;
                    assert(old(self).primary@[j].key < old(self).spec_preempt_min());
                }
                assert(self@ =~= old(self)@.insert(key, value));
            }
        } else {
            let _ = map_insert(&mut self.preempt, key, value);
            proof {
                assert(self.pemap().dom() =~= old(self).pemap().dom());
                assert(self@ =~= old(self)@.insert(key, value));
            }
        }
    }

    /// Apply a caller-supplied rewrite to the quantity of a live level. The
    /// rewritten quantity is stored; a rewrite to zero deletes the level, as
    /// a zero quantity always does. Returns whether the key was live.
    pub fn update_value<F: FnOnce(u64) -> u64>(&mut self, key: u32, f: F) -> (r: bool)
        requires
            old(self).wf(),
            old(self)@.dom().contains(key) ==> call_requires(f, (old(self)@[key],)),
        ensures
            final(self).wf(),
            r == old(self)@.dom().contains(key),
            !r ==> *final(self) == *old(self),
            r ==> exists|y: u64|
                #[trigger] call_ensures(f, (old(self)@[key],), y) && final(self)@ == (if y != 0 {
                    old(self)@.insert(key, y)
                } else {
                    old(self)@.remove(key)
                }),
    {
        let cur = match self.get(key) {
            Some(v) => v,
            None => {
                return false;
            },
        };
        let y = f(cur);
        if y == 0 {
            let _ = self.remove(key);
        } else {
            self.set_value(key, y);
        }
        true
    }

    /// Post a level: a non-zero quantity is stored for the key, routed to the
    /// tier the key belongs in, with the lowest `MAX_SIZE` keys kept primary;
    /// a zero quantity deletes the key.
    pub fn insert(&mut self, key: u32, value: u64)
        requires
            old(self).wf(),
        ensures
            final(self).wf(),
            value != 0 ==> final(self)@ == old(self)@.insert(key, value),
            value == 0 ==> final(self)@ == old(self)@.remove(key),
    {
        if value == 0 {
            let _ = self.remove(key);
            return ;
        }
        proof {
            old(self).lemma_tiers();
        }
        let updated = self.update_value(
            key,
            (|_q: u64| -> (y: u64)
                ensures
                    y == value,
                { value }),
        );
        if updated {
            return ;
        }
        if self.check_bounds_and_thres(key) {
            if self.glass_size() < MAX_SIZE {
                proof {
                    lemma_to_map_len(self.prim());
                }
                self.glass_insert(key, value);
                proof {
                    assert(self.pemap().dom().is_empty()) by {
                        if !old(self).pemap().dom().is_empty() {
                            assert(old(self).primary@.len() == MAX_SIZE);
                            lemma_to_map_len(old(self).prim());
                        }
                    }
                    assert(self@ =~= old(self)@.insert(key, value));
                }
            } else {
                match self.glass_max() {
                    Some((worst_key, worst_v)) => {
                        proof {
                            assert(old(self)@.dom().contains(worst_key));
                            assert(key != worst_key);
                        }
                        if key < worst_key {
                            let _ = self.glass_remove(worst_key);
                            let _ = map_insert(&mut self.preempt, worst_key, worst_v);
                            self.update_preempt_bounds();
                            self.glass_insert(key, value);
                            proof {
                                let o = *old(self);
                                lemma_to_map_dom(self.prim());
                                lemma_to_map_dom(o.prim());
                                assert(!self.pemap().dom().is_empty());
                                assert(!self.pmap().dom().contains(worst_key));
                                assert(self.pmap().dom() =~= o.pmap().dom().remove(
                                    worst_key,
                                ).insert(key));
                                lemma_to_map_len(self.prim());
                                lemma_to_map_len(o.prim());
                                assert(self.primary@.len() == MAX_SIZE) by {
                                    assert(o.pmap().dom().remove(worst_key).insert(key).len()
                                        == MAX_SIZE);
                                }
                                assert forall|i: int|
                                    0 <= i < self.primary@.len() implies (
                                #[trigger] self.primary@[i]).key < self.preempt_min by {
                                    let k2 = self.prim()[i].0;
                                    assert(has_key(self.prim(), k2));
                                    assert(self.pmap().dom().contains(k2));
                                    assert(k2 == key || (o.pmap().dom().contains(k2) && k2
                                        != worst_key));
                                    assert(k2 < worst_key) by {
                                        if k2 != key {
                                            assert(k2 <= worst_key);
                                        }
                                    }
                                    assert(self.pemap().dom().contains(self.preempt_min));
                                    let pm = self.preempt_min;
                                    assert(pm == worst_key || o.pemap().dom().contains(pm));
                                    if pm != worst_key {
                                        assert(!o.pemap().dom().is_empty());
                                        assert(k2 < o.spec_thres());
                                        assert(o.spec_thres() <= pm);
                                    }
                                }
                                assert(self@ =~= old(self)@.insert(key, value)) by {
                                    assert(old(self)@[worst_key] == worst_v);
                                }
                            }
                        } else {
                            let _ = map_insert(&mut self.preempt, key, value);
                            self.update_preempt_bounds();
                            proof {
                                let o = *old(self);
                                assert(key > worst_key);
                                assert(!self.pemap().dom().is_empty());
                                assert forall|i: int|
                                    0 <= i < self.primary@.len() implies (
                                #[trigger] self.primary@[i]).key < self.preempt_min by {
                                    let k2 = self.primary@[i].key;
                                    assert(o.prim()[i].0 == k2);
                                    lemma_to_map_index(o.prim(), i);
                                    assert(o.pmap().dom().contains(k2));
                                    assert(k2 <= worst_key);
                                    assert(self.pemap().dom().contains(self.preempt_min));
                                    let pm = self.preempt_min;
                                    assert(pm == key || o.pemap().dom().contains(pm));
                                    if pm != key {
                                        assert(!o.pemap().dom().is_empty());
                                        assert(o.primary@[i].key < o.spec_thres());
                                        assert(o.spec_thres() <= pm);
                                    }
                                }
                                assert(self@ =~= old(self)@.insert(key, value));
                            }
                        }
                    },
                    None => {
                        proof {
                            lemma_to_map_len(self.prim());
                            assert(false);
                        }
                    },
                }
            }
        } else {
            let _ = map_insert(&mut self.preempt, key, value);
            self.update_preempt_bounds();
            proof {
                let o = *old(self);
                assert(!self.pemap().dom().is_empty());
                assert forall|i: int| 0 <= i < self.primary@.len() implies (
                #[trigger] self.primary@[i]).key < self.preempt_min by {
                    assert(o.primary@[i].key < o.spec_thres());
                    assert(self.pemap().dom().contains(self.preempt_min));
                    let pm = self.preempt_min;
                    assert(pm == key || o.pemap().dom().contains(pm));
                    if pm != key {
                        assert(o.spec_thres() <= pm);
                    }
                }
                assert(self@ =~= old(self)@.insert(key, value));
            }
        }
    }

    /// Look a key up: the live quantity at that price, or nothing.
    pub fn get(&self, key: u32) -> (r: Option<u64>)
        requires
            self.wf(),
        ensures
            r == (if self@.dom().contains(key) {
                Some(self@[key])
            } else {
                None::<u64>
            }),
    {
        proof {
            self.lemma_tiers();
        }
        if self.check_bounds_and_thres(key) {
            self.glass_get(key)
        } else {
            map_get(&self.preempt, key)
        }
    }

    /// The lowest live level of the whole book, across both tiers.
    pub fn min(&self) -> (r: Option<(u32, u64)>)
        requires
            self.wf(),
        ensures
            match r {
                Some(p) => self@.dom().contains(p.0) && self@[p.0] == p.1 && p.1 != 0
                    && forall|k: u32| #[trigger] self@.dom().contains(k) ==> p.0 <= k,
                None => self@.dom().is_empty(),
            },
    {
        proof {
            self.lemma_tiers();
            lemma_to_map_len(self.prim());
        }
        let glass_min = self.glass_min();
        let preempt_min_key = self.preempt_min;
        let preempt_has_min = preempt_min_key != u32::MAX;
        match (glass_min, preempt_has_min) {
            (Some((t_key, t_val)), true) => {
                if t_key <= preempt_min_key {
                    Some((t_key, t_val))
                } else {
                    let v = match map_get(&self.preempt, preempt_min_key) {
                        Some(v) => v,
                        None => {
                            proof {
                                assert(false);
                            }
                            0
                        },
                    };
                    proof {
                        assert(!self.pemap().dom().is_empty());
                        lemma_to_map_dom(self.prim());
                        let j = choose|j: int|
                            0 <= j < self.prim().len() && (#[trigger] self.prim()[j]).0 == t_key;
                        assert(self.primary@[j].key < self.preempt_min);
                        assert(false);
                    }
                    Some((preempt_min_key, v))
                }
            },
            (Some(t), false) => Some(t),
            (None, true) => {
                proof {
                    assert(false);
                }
                let v = match map_get(&self.preempt, preempt_min_key) {
                    Some(v) => v,
                    None => 0,
                };
                Some((preempt_min_key, v))
            },
            (None, false) => None,
        }
    }

    /// The highest live level of the whole book, across both tiers.
    pub fn max(&self) -> (r: Option<(u32, u64)>)
        requires
            self.wf(),
        ensures
            match r {
                Some(p) => self@.dom().contains(p.0) && self@[p.0] == p.1 && p.1 != 0
                    && forall|k: u32| #[trigger] self@.dom().contains(k) ==> k <= p.0,
                None => self@.dom().is_empty(),
            },
    {
        proof {
            self.lemma_tiers();
            lemma_to_map_len(self.prim());
        }
        let glass_max = self.glass_max();
        let preempt_max_key = self.preempt_max;
        let preempt_has_max = preempt_max_key != 0;
        match (glass_max, preempt_has_max) {
            (Some((t_key, t_val)), true) => {
                if t_key >= preempt_max_key {
                    proof {
                        assert(!self.pemap().dom().is_empty());
                        assert(self.pemap().dom().contains(self.preempt_max));
                        lemma_to_map_dom(self.prim());
                        let j = choose|j: int|
                            0 <= j < self.prim().len() && (#[trigger] self.prim()[j]).0 == t_key;
                        assert(self.primary@[j].key < self.preempt_min);
                        assert(false);
                    }
                    Some((t_key, t_val))
                } else {
                    let v = match map_get(&self.preempt, preempt_max_key) {
                        Some(v) => v,
                        None => {
                            proof {
                                assert(false);
                            }
                            0
                        },
                    };
                    Some((preempt_max_key, v))
                }
            },
            (Some(t), false) => {
                proof {
                    if !self.pemap().dom().is_empty() {
                        assert(self.pemap().dom().contains(self.preempt_min));
                        assert(self.primary@[0].key < self.preempt_min);
                    }
                }
                Some(t)
            },
            (None, true) => {
                proof {
                    assert(self.pemap().dom().contains(self.preempt_max));
                    assert(false);
                }
                let v = match map_get(&self.preempt, preempt_max_key) {
                    Some(v) => v,
                    None => 0,
                };
                Some((preempt_max_key, v))
            },
            (None, false) => {
                proof {
                    if !self.pemap().dom().is_empty() {
                        assert(self.pemap().dom().contains(self.preempt_min));
                    }
                }
                None
            },
        }
    }

    /// The lowest (`is_min`) or highest level of the primary tier.
    pub fn glass_find_extreme(&self, is_min: bool) -> (r: Option<(u32, u64)>)
        requires
            self.prim_wf(),
        ensures
            match r {
                Some(p) => self.pmap().dom().contains(p.0) && self.pmap()[p.0] == p.1 && (is_min
                    ==> forall|k: u32| #[trigger] self.pmap().dom().contains(k) ==> p.0 <= k) && (
                !is_min ==> forall|k: u32| #[trigger] self.pmap().dom().contains(k) ==> k <= p.0),
                None => self.pmap().dom().is_empty(),
            },
    {
        if is_min {
            self.glass_min()
        } else {
            self.glass_max()
        }
    }

    /// The lowest primary key, or `u32::MAX` when the primary tier is empty.
    pub fn min_key(&self) -> (k: u32)
        requires
            self.prim_wf(),
        ensures
            self.pmap().dom().is_empty() ==> k == u32::MAX,
            !self.pmap().dom().is_empty() ==> self.pmap().dom().contains(k) && forall|k2: u32|
                #[trigger] self.pmap().dom().contains(k2) ==> k <= k2,
    {
        match self.glass_min() {
            Some((k, _)) => k,
            None => u32::MAX,
        }
    }

    /// The highest primary key, or `0` when the primary tier is empty.
    pub fn max_key(&self) -> (k: u32)
        requires
            self.prim_wf(),
        ensures
            self.pmap().dom().is_empty() ==> k == 0,
            !self.pmap().dom().is_empty() ==> self.pmap().dom().contains(k) && forall|k2: u32|
                #[trigger] self.pmap().dom().contains(k2) ==> k2 <= k,
    {
        match self.glass_max() {
            Some((k, _)) => k,
            None => 0,
        }
    }

    /// How many levels the preempt tier holds.
    pub fn preempt_len(&self) -> (n: usize)
        requires
            self.wf(),
        ensures
            n == self.pemap().dom().len(),
    {
        map_len(&self.preempt)
    }

    /// The routing threshold: the smallest preempt key, or `u32::MAX` while
    /// the preempt tier is empty.
    pub fn threshold(&self) -> (t: u32)
        requires
            self.wf(),
        ensures
            t == self.spec_thres(),
            self.pemap().dom().is_empty() ==> t == u32::MAX,
            !self.pemap().dom().is_empty() ==> self.pemap().dom().contains(t) && forall|k: u32|
                #[trigger] self.pemap().dom().contains(k) ==> t <= k,
    {
        self.thres
    }

    /// The preempt tier's entries in ascending key order, given its sorted
    /// keys.
    pub closed spec fn pe_entries_of(self, ks: Seq<u32>) -> Seq<(u32, u64)> {
        Seq::new(ks.len(), |j: int| (ks[j], self.pemap()[ks[j]]))
    }

    /// Joining the primary entries with the preempt entries gives the sorted
    /// entry sequence of the whole book.
    proof fn lemma_full_entries(self, ks: Seq<u32>)
        requires
            self.wf(),
            keys_sorted(ks),
            ks.to_set() == self.pemap().dom(),
            ks.len() == self.pemap().dom().len(),
        ensures
            key_sorted(self.prim() + self.pe_entries_of(ks)),
            to_map(self.prim() + self.pe_entries_of(ks)) == self@,
            (self.prim() + self.pe_entries_of(ks)).len() == self@.dom().len(),
            crate::seqmap::asc_entries(self@) == self.prim() + self.pe_entries_of(ks),
    {
        self.lemma_tiers();
        let pe_seq = self.pe_entries_of(ks);
        assert forall|j: int| 0 <= j < pe_seq.len() implies self.pemap().dom().contains(
            (#[trigger] pe_seq[j]).0,
        ) && self.pemap()[pe_seq[j].0] == pe_seq[j].1 by {
            assert(ks.to_set().contains(ks[j]));
        }
        assert forall|a: int, b: int| 0 <= a < b < pe_seq.len() implies (
        #[trigger] pe_seq[a]).0 < (#[trigger] pe_seq[b]).0 by {
            assert(ks[a] < ks[b]);
        }
        assert forall|k: u32| #[trigger] self.pemap().dom().contains(k) implies has_key(
            pe_seq,
            k,
        ) by {
            assert(ks.to_set().contains(k));
            let j = choose|j: int| 0 <= j < ks.len() && ks[j] == k;
            assert(pe_seq[j].0 == k);
        }
        crate::seqmap::lemma_to_map_eq(pe_seq, self.pemap());
        assert forall|a: int, b: int|
            0 <= a < self.prim().len() && 0 <= b < pe_seq.len() implies (
        #[trigger] self.prim()[a]).0 < (#[trigger] pe_seq[b]).0 by {
            assert(ks.to_set().contains(ks[b]));
            assert(self.pemap().dom().contains(ks[b]));
            assert(self.primary@[a].key < self.preempt_min);
        }
        crate::seqmap::lemma_entry_concat(self.prim(), pe_seq);
        assert(to_map(self.prim() + pe_seq) == self@);
        crate::seqmap::lemma_to_map_len(self.prim() + pe_seq);
        crate::seqmap::lemma_asc_entries_is(self@, self.prim() + pe_seq);
    }

    /// The key of rank `k` within the primary tier: exactly `k` primary keys
    /// lie below it.
    pub fn glass_find_kth_key(&self, k: usize) -> (r: Option<u32>)
        requires
            self.prim_wf(),
        ensures
            match r {
                Some(key) => k < self.pmap().dom().len() && self.pmap().dom().contains(key)
                    && self.pmap().dom().filter(|k2: u32| k2 < key).len() == k,
                None => k >= self.pmap().dom().len(),
            },
    {
        proof {
            lemma_to_map_len(self.prim());
        }
        if k < self.primary.len() {
            proof {
                crate::seqmap::lemma_rank(self.prim(), k as int);
                lemma_to_map_index(self.prim(), k as int);
            }
            Some(self.primary[k].key)
        } else {
            None
        }
    }

    /// Take out the level of rank `k` across the whole book (rank 0 is the
    /// lowest key) and return it.
    pub fn remove_by_index(&mut self, k: usize) -> (r: Option<(u32, u64)>)
        requires
            old(self).wf(),
        ensures
            final(self).wf(),
            match r {
                Some(p) => k < old(self)@.dom().len() && old(self)@.dom().contains(p.0) && p.1
                    == old(self)@[p.0] && old(self)@.dom().filter(|k2: u32| k2 < p.0).len() == k
                    && final(self)@ == old(self)@.remove(p.0),
                None => k >= old(self)@.dom().len() && final(self)@ == old(self)@,
            },
    {
        proof {
            old(self).lemma_tiers();
        }
        if k == 0 {
            match self.min() {
                Some((key, _)) => {
                    proof {
                        assert(old(self)@.dom().filter(|k2: u32| k2 < key) =~= Set::<
                            u32,
                        >::empty());
                        if old(self)@.dom().len() == 0 {
                            old(self)@.dom().lemma_len0_is_empty();
                        }
                    }
                    match self.remove(key) {
                        Some(v) => Some((key, v)),
                        None => {
                            proof {
                                assert(false);
                            }
                            None
                        },
                    }
                },
                None => {
                    proof {
                        assert(old(self)@.dom() =~= Set::<u32>::empty());
                    }
                    None
                },
            }
        } else {
            let glass_size = self.glass_size();
            if k < glass_size {
                let key = match self.glass_find_kth_key(k) {
                    Some(key) => key,
                    None => {
                        proof {
                            assert(false);
                        }
                        0
                    },
                };
                proof {
                    assert(old(self)@.dom().filter(|k2: u32| k2 < key) =~= old(
                        self,
                    ).pmap().dom().filter(|k2: u32| k2 < key)) by {
                        assert forall|k2: u32|
                            old(self)@.dom().contains(k2) && k2 < key implies old(
                        self,
                        ).pmap().dom().contains(k2) by {
                            if old(self).pemap().dom().contains(k2) {
                                assert(old(self).pemap().dom().contains(old(
                                    self,
                                ).spec_preempt_min()));
                                assert(k2 >= old(self).spec_preempt_min());
                                lemma_to_map_dom(old(self).prim());
                                let j = choose|j: int|
                                    0 <= j < old(self).prim().len() && (#[trigger] old(
                                        self,
                                    ).prim()[j]).0 == key;
                                assert(old(self).primary@[j].key < old(self).spec_preempt_min());
                                assert(false);
                            }
                        }
                    }
                    vstd::set_lib::lemma_len_subset(old(self).pmap().dom(), old(self)@.dom());
                }
                match self.remove(key) {
                    Some(v) => Some((key, v)),
                    None => {
                        proof {
                            assert(false);
                        }
                        None
                    },
                }
            } else {
                let preempt_k = k - glass_size;
                let keys = self.sorted_preempt_keys();
                proof {
                    self.lemma_full_entries(keys@);
                }
                if preempt_k >= keys.len() {
                    proof {
                        assert(old(self)@.dom().len() == glass_size + keys@.len());
                    }
                    None
                } else {
                    let key = keys[preempt_k];
                    proof {
                        let full = self.prim() + self.pe_entries_of(keys@);
                        crate::seqmap::lemma_rank(full, k as int);
                        crate::seqmap::lemma_to_map_index(full, k as int);
                        assert(full[k as int] == self.pe_entries_of(keys@)[preempt_k as int]);
                        assert(full[k as int].0 == key);
                    }
                    match self.remove(key) {
                        Some(v) => Some((key, v)),
                        None => {
                            proof {
                                assert(false);
                            }
                            None
                        },
                    }
                }
            }
        }
    }

    /// Whether bit `i` of a 64-bit occupancy mask is set.
    pub open spec fn bit_set(mask: u64, i: u64) -> bool {
        i < 64 && (mask >> i) & 1u64 == 1u64
    }

    /// Bit-scan forward: the smallest set bit of `mask` at or above `start`.
    pub fn find_next_set_bit(&self, mask: u64, start: usize) -> (r: Option<usize>)
        ensures
            match r {
                Some(p) => start <= p < 64 && Self::bit_set(mask, p as u64) && forall|j: u64|
                    start <= j < p ==> !Self::bit_set(mask, j),
                None => forall|j: u64| start <= j < 64 ==> !Self::bit_set(mask, j),
            },
    {
        if start >= 64 {
            return None;
        }
        let s = start as u64;
        let m = mask >> s;
        if m == 0 {
            proof {
                assert forall|j: u64| s <= j < 64 implies !Self::bit_set(mask, j) by {
                    assert(mask >> s == 0 && s <= j < 64 ==> (mask >> j) & 1u64 == 0u64)
                        by (bit_vector);
                }
            }
            return None;
        }
        let tz = m.trailing_zeros() as usize;
        proof {
            vstd::std_specs::bits::axiom_u64_trailing_zeros(m);
            let t = vstd::std_specs::bits::u64_trailing_zeros(m) as u64;
            assert(t < 64);
            assert((m >> t) & 1u64 == 1u64);
            assert(m == mask >> s && (m >> t) & 1u64 == 1u64 && s < 64 && t < 64 && s + t >= 64
                ==> false) by (bit_vector);
            assert(m == mask >> s && (m >> t) & 1u64 == 1u64 && s + t < 64 ==> (mask >> (s
                + t) as u64) & 1u64 == 1u64) by (bit_vector);
            assert forall|j: u64| s <= j < s + t implies !Self::bit_set(mask, j) by {
                let d = (j - s) as u64;
                assert((m >> d) & 1u64 == 0u64);
                assert(m == mask >> s && (m >> d) & 1u64 == 0u64 && j == s + d && j < 64 ==> (
                mask >> j) & 1u64 == 0u64) by (bit_vector);
            }
        }
        Some(start + tz)
    }

    /// Bit-scan reverse: the largest set bit of `mask` strictly below `end`,
    /// by a portable downward scan.
    pub fn find_prev_set_bit(&self, mask: u64, end: usize) -> (r: Option<usize>)
        requires
            end <= 64,
        ensures
            match r {
                Some(p) => p < end && Self::bit_set(mask, p as u64) && forall|j: u64|
                    p < j < end ==> !Self::bit_set(mask, j),
                None => forall|j: u64| j < end ==> !Self::bit_set(mask, j),
            },
    {
        let mut j: usize = end;
        while j > 0
            invariant
                j <= end <= 64,
                forall|t: u64| j <= t < end ==> !Self::bit_set(mask, t),
            decreases j,
        {
            j = j - 1;
            if (mask >> (j as u64)) & 1u64 == 1u64 {
                return Some(j);
            }
        }
        None
    }

    /// `u64` multiplication that stops at the largest representable value.
    fn sat_mul(a: u64, b: u64) -> (r: u64)
        ensures
            r == sat_mul64(a, b),
    {
        match a.checked_mul(b) {
            Some(x) => x,
            None => u64::MAX,
        }
    }

    /// What buying `target_shares` shares would cost, sweeping the book in
    /// ascending key order, without changing anything: each level sells up to
    /// its quantity at its key as the unit price, saturating at `u64::MAX`.
    #[verifier::rlimit(60)]
    pub fn compute_buy_cost(&self, target_shares: u64) -> (r: u64)
        requires
            self.wf(),
        ensures
            r == seq_cost(asc_entries(self@), target_shares),
    {
        proof {
            self.lemma_tiers();
        }
        let keys = self.sorted_preempt_keys();
        proof {
            self.lemma_full_entries(keys@);
        }
        let ghost full = self.prim() + self.pe_entries_of(keys@);
        proof {
            assert(full.skip(0) =~= full);
        }
        let mut total_cost: u64 = 0;
        let mut target = target_shares;
        let mut i: usize = 0;
        #[verifier::loop_isolation(false)]
        while i < self.primary.len() && target > 0
            invariant
                i <= self.primary@.len(),
                seq_cost(full, target_shares) == sat_add64(
                    total_cost,
                    seq_cost(full.skip(i as int), target),
                ),
            decreases self.primary@.len() - i,
        {
            let price = self.primary[i].key;
            let qty = self.primary[i].value;
            let take = if qty <= target {
                qty
            } else {
                target
            };
            let m = Self::sat_mul(price as u64, take);
            proof {
                assert(full.skip(i as int)[0] == full[i as int]);
                assert(full[i as int] == self.prim()[i as int]);
                assert(full.skip(i as int).drop_first() =~= full.skip(i + 1));
                lemma_sat_add_assoc(
                    total_cost,
                    m,
                    seq_cost(full.skip(i + 1), (target - take) as u64),
                );
            }
            total_cost = total_cost.saturating_add(m);
            target = target - take;
            i = i + 1;
        }
        let mut j: usize = 0;
        #[verifier::loop_isolation(false)]
        while j < keys.len() && target > 0
            invariant
                j <= keys@.len(),
                seq_cost(full, target_shares) == sat_add64(
                    total_cost,
                    seq_cost(full.skip(self.primary@.len() + j), target),
                ),
            decreases keys@.len() - j,
        {
            let k = keys[j];
            proof {
                assert(keys@.to_set().contains(keys@[j as int]));
            }
            let avail = match map_get(&self.preempt, k) {
                Some(v) => v,
                None => {
                    proof {
                        assert(false);
                    }
                    0
                },
            };
            let take = if avail <= target {
                avail
            } else {
                target
            };
            let m = Self::sat_mul(k as u64, take);
            let ghost at = self.primary@.len() + j;
            proof {
                assert(full.skip(at)[0] == full[at]);
                assert(full[at] == self.pe_entries_of(keys@)[j as int]);
                assert(full.skip(at).drop_first() =~= full.skip(at + 1));
                lemma_sat_add_assoc(total_cost, m, seq_cost(full.skip(at + 1), (target
                    - take) as u64));
            }
            total_cost = total_cost.saturating_add(m);
            target = target - take;
            j = j + 1;
        }
        proof {
            if target > 0 {
                assert(full.skip(self.primary@.len() + keys@.len() as int) =~= Seq::<(u32, u64)>::empty());
            }
        }
        total_cost
    }

    /// Buy `shares_to_buy` shares, cheapest levels first, consuming them from
    /// the book; returns the total cost. The cost equals what
    /// `compute_buy_cost` quotes on the same book, and the book left behind
    /// holds exactly the unsold remainder.
    #[verifier::rlimit(60)]
    pub fn buy_shares(&mut self, shares_to_buy: u64) -> (r: u64)
        requires
            old(self).wf(),
        ensures
            final(self).wf(),
            r == seq_cost(asc_entries(old(self)@), shares_to_buy),
            final(self)@ == buy_left(asc_entries(old(self)@), shares_to_buy),
    {
        proof {
            old(self).lemma_tiers();
            lemma_exists_asc(old(self)@);
        }
        let ghost s0 = asc_entries(old(self)@);
        let mut total_cost: u64 = 0;
        let mut shares = shares_to_buy;
        #[verifier::loop_isolation(false)]
        while shares > 0 && self.glass_size() != 0
            invariant
                self.wf(),
                sat_add64(total_cost, seq_cost(asc_entries(self@), shares)) == seq_cost(
                    s0,
                    shares_to_buy,
                ),
                buy_left(asc_entries(self@), shares) == buy_left(s0, shares_to_buy),
                key_sorted(asc_entries(self@)),
                to_map(asc_entries(self@)) == self@,
            decreases shares,
        {
            let ghost cur = asc_entries(self@);
            proof {
                self.lemma_tiers();
                lemma_to_map_len(cur);
                lemma_to_map_dom(cur);
                lemma_to_map_bounds(cur);
                lemma_to_map_index(cur, 0);
            }
            match self.min() {
                Some((price, avail)) => {
                    proof {
                        assert(cur[0].0 == price) by {
                            assert(self@.dom().contains(cur[0].0));
                            assert(self@.dom().contains(price));
                        }
                        assert(cur[0].1 == avail);
                    }
                    if avail <= shares {
                        let m = Self::sat_mul(price as u64, avail);
                        proof {
                            crate::seqmap::lemma_entry_remove(cur, 0);
                            assert(cur.remove(0) =~= cur.drop_first());
                            lemma_sat_add_assoc(
                                total_cost,
                                m,
                                seq_cost(cur.drop_first(), (shares - avail) as u64),
                            );
                        }
                        total_cost = total_cost.saturating_add(m);
                        shares = shares - avail;
                        let _ = self.remove(price);
                        proof {
                            crate::seqmap::lemma_asc_entries_is(self@, cur.drop_first());
                        }
                    } else {
                        let m = Self::sat_mul(price as u64, shares);
                        total_cost = total_cost.saturating_add(m);
                        let ghost sh = shares;
                        let upd = self.update_value(
                            price,
                            (|q: u64| -> (y: u64)
                                requires
                                    q >= shares,
                                ensures
                                    y == q - shares,
                                { q - shares }),
                        );
                        proof {
                            assert(upd);
                            assert(self@ == to_map(cur).insert(price, (avail - sh) as u64));
                            assert(seq_cost(cur, sh) == sat_add64(
                                sat_mul64(price as u64, sh),
                                seq_cost(cur.drop_first(), 0),
                            ));
                            assert(buy_left(cur, sh) == to_map(cur).insert(
                                price,
                                (avail - sh) as u64,
                            ));
                            lemma_exists_asc(self@);
                        }
                        shares = 0;
                        proof {
                            assert(seq_cost(asc_entries(self@), 0) == 0);
                            assert(buy_left(asc_entries(self@), 0) == self@);
                        }
                    }
                },
                None => {
                    proof {
                        lemma_to_map_len(self.prim());
                        assert(false);
                    }
                },
            }
            proof {
                lemma_exists_asc(self@);
            }
        }
        proof {
            if shares == 0 {
                assert(seq_cost(asc_entries(self@), 0) == 0);
                assert(buy_left(asc_entries(self@), 0) == to_map(asc_entries(self@)));
            } else {
                lemma_to_map_len(self.prim());
                self.lemma_tiers();
                assert(self@.dom().len() == 0);
                assert(asc_entries(self@).len() == 0) by {
                    lemma_to_map_len(asc_entries(self@));
                }
            }
        }
        total_cost
    }
}

} // verus!
