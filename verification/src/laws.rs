//! The ladder's laws: properties that relate the public operations, stated
//! over the map view (`self@`) and the spec functions that the operations'
//! contracts use, and proved once and for all.
use vstd::prelude::*;

use crate::glass::Glass;
use crate::glass::MAX_SIZE;
use crate::seqmap::asc_entries;
use crate::seqmap::key_sorted;
use crate::seqmap::lemma_exists_asc;
use crate::seqmap::lemma_seq_cost_is_sim_cost;
use crate::seqmap::lemma_to_map_len;
use crate::seqmap::seq_cost;
use crate::seqmap::sim_cost;
use crate::seqmap::to_map;

verus! {

/// Law: posting a non-zero quantity and then looking the key up yields that
/// quantity. `insert(k, v)` leaves the book `m.insert(k, v)`, on which `get`
/// answers `Some(v)`.
pub proof fn law_insert_then_get(m: Map<u32, u64>, key: u32, value: u64)
    requires
        value != 0,
    ensures
        m.insert(key, value).dom().contains(key),
        m.insert(key, value)[key] == value,
{
}

/// Law: posting a non-zero quantity and then removing the key gives that
/// quantity back and leaves the key absent, so a further `get` answers
/// nothing. `remove` on the book `m.insert(k, v)` returns its value at `k`,
/// which is `v`, and leaves `m.insert(k, v).remove(k)`.
pub proof fn law_insert_then_remove(m: Map<u32, u64>, key: u32, value: u64)
    requires
        value != 0,
    ensures
        m.insert(key, value).dom().contains(key),
        m.insert(key, value)[key] == value,
        !m.insert(key, value).remove(key).dom().contains(key),
{
}

/// Law: removing an absent key leaves the book unchanged (and, by `remove`'s
/// contract, returns nothing).
pub proof fn law_remove_absent(m: Map<u32, u64>, key: u32)
    requires
        !m.dom().contains(key),
    ensures
        m.remove(key) == m,
{
    assert(m.remove(key) =~= m);
}

/// Law: the primary tier never exceeds `MAX_SIZE`; while the preempt tier is
/// non-empty the primary tier is exactly full, and the threshold separates
/// the tiers: every primary key lies below it, every preempt key at or above
/// it, and it is itself the smallest preempt key.
pub proof fn law_tier_split(g: Glass)
    requires
        g.wf(),
    ensures
        g.pmap().dom().len() <= MAX_SIZE,
        !g.pemap().dom().is_empty() ==> g.pmap().dom().len() == MAX_SIZE && g.pemap(
        ).dom().contains(g.spec_thres()),
        forall|k: u32|
            !g.pemap().dom().is_empty() && #[trigger] g.pmap().dom().contains(k) ==> k
                < g.spec_thres(),
        forall|k: u32| #[trigger] g.pemap().dom().contains(k) ==> g.spec_thres() <= k,
{
    g.lemma_tiers();
}

/// Law: every stored quantity is live: a zero quantity never denotes an
/// entry of the book.
pub proof fn law_live_values(g: Glass)
    requires
        g.wf(),
    ensures
        forall|k: u32| #[trigger] g@.dom().contains(k) ==> g@[k] != 0,
{
    g.lemma_tiers();
}

/// Law: what `compute_buy_cost` quotes — and what `buy_shares` charges,
/// since both contracts return `seq_cost` of the book's entry sequence — is
/// exactly the cost of the simulation that repeatedly takes the book's
/// minimum and consumes it (`min`, then `remove` or an in-place update).
pub proof fn law_quote_is_simulated(g: Glass, t: u64)
    requires
        g.wf(),
    ensures
        seq_cost(asc_entries(g@), t) == sim_cost(g@, t),
{
    g.lemma_tiers();
    lemma_seq_cost_is_sim_cost(g@, t);
}

/// Law: the book's entry sequence — the one `compute_buy_cost` and
/// `buy_shares` price against — visits every live level exactly once, in
/// strictly ascending key order, the ordered-walk analogue of a leaf sibling
/// chain.
pub proof fn law_ordered_walk(g: Glass)
    requires
        g.wf(),
    ensures
        key_sorted(asc_entries(g@)),
        to_map(asc_entries(g@)) == g@,
        asc_entries(g@).len() == g@.dom().len(),
{
    g.lemma_tiers();
    lemma_exists_asc(g@);
    lemma_to_map_len(asc_entries(g@));
}

} // verus!
