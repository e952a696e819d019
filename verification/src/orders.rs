//! Order data model and per-type aggregation.
//!
//! One pull cycle collects a flat list of market orders for a region.
//! Aggregation buckets that list by `type_id`, splitting each bucket into a
//! buy side and a sell side according to `is_buy_order`, and preserving the
//! arrival order inside each side.  The result is the unit of broadcast.

use vstd::prelude::*;

verus! {

/// One market order, immutable once parsed.
///
/// The price is carried as the raw bit pattern of its 64-bit encoding; the
/// aggregation logic never interprets it, so no arithmetic is ever done on it
/// here.  The caller that decodes orders from the wire also re-encodes the
/// price when a snapshot is serialized.
#[derive(Debug, Clone, PartialEq, Eq)]
pub struct Order {
    pub duration: i32,
    pub is_buy_order: bool,
    pub issued: String,
    pub location_id: i64,
    pub price_bits: u64,
    pub system_id: i32,
    pub type_id: i32,
    pub volume_remain: i32,
    pub volume_total: i32,
}

/// The buy and sell order lists of one item type within one region snapshot.
#[derive(Debug, Clone, PartialEq, Eq)]
pub struct TypeOrders {
    pub sell_orders: Vec<Order>,
    pub buy_orders: Vec<Order>,
}

/// One broadcast payload: a region id plus one bucket per item type that
/// occurs in the collected orders.  Keys are unique; their order carries no
/// meaning.
#[derive(Debug, Clone, PartialEq, Eq)]
pub struct RegionOrders {
    pub region_id: i32,
    pub orders: Vec<(i32, TypeOrders)>,
}

/// The orders of `s`, in order, whose `type_id` is `t` and whose
/// `is_buy_order` flag is `buy`.
pub open spec fn bucket_of(s: Seq<Order>, t: i32, buy: bool) -> Seq<Order>
    decreases s.len(),
{
    if s.len() == 0 {
        Seq::empty()
    } else if s.last().type_id == t && s.last().is_buy_order == buy {
        bucket_of(s.drop_last(), t, buy).push(s.last())
    } else {
        bucket_of(s.drop_last(), t, buy)
    }
}

/// No two buckets share a `type_id` key.
pub open spec fn bucket_keys_unique(bs: Seq<(i32, TypeOrders)>) -> bool {
    forall|i: int, j: int| 0 <= i < j < bs.len() ==> (#[trigger] bs[i]).0 != (#[trigger] bs[j]).0
}

/// Every bucket holds exactly the orders of its key, split by side and in
/// arrival order.
pub open spec fn buckets_match(src: Seq<Order>, bs: Seq<(i32, TypeOrders)>) -> bool {
    forall|i: int|
        0 <= i < bs.len() ==> (#[trigger] bs[i]).1.buy_orders@ == bucket_of(src, bs[i].0, true)
            && bs[i].1.sell_orders@ == bucket_of(src, bs[i].0, false)
}

/// Some bucket carries the key `t`.
pub open spec fn has_bucket(bs: Seq<(i32, TypeOrders)>, t: i32) -> bool {
    exists|i: int| 0 <= i < bs.len() && (#[trigger] bs[i]).0 == t
}

/// Every collected order has a bucket for its type.
pub open spec fn buckets_complete(src: Seq<Order>, bs: Seq<(i32, TypeOrders)>) -> bool {
    forall|k: int| 0 <= k < src.len() ==> has_bucket(bs, (#[trigger] src[k]).type_id)
}

/// Some order of `src` has type `t`.
pub open spec fn key_occurs(src: Seq<Order>, t: i32) -> bool {
    exists|k: int| 0 <= k < src.len() && (#[trigger] src[k]).type_id == t
}

/// Every bucket key is the type of at least one collected order.
pub open spec fn buckets_grounded(src: Seq<Order>, bs: Seq<(i32, TypeOrders)>) -> bool {
    forall|i: int| 0 <= i < bs.len() ==> key_occurs(src, (#[trigger] bs[i]).0)
}

/// The buckets `bs` are exactly the aggregation of the order list `src`.
pub open spec fn bucketed(src: Seq<Order>, bs: Seq<(i32, TypeOrders)>) -> bool {
    &&& bucket_keys_unique(bs)
    &&& buckets_match(src, bs)
    &&& buckets_complete(src, bs)
    &&& buckets_grounded(src, bs)
}

/// Total number of orders held across all buckets, both sides.
pub open spec fn order_count(bs: Seq<(i32, TypeOrders)>) -> nat
    decreases bs.len(),
{
    if bs.len() == 0 {
        0
    } else {
        order_count(bs.drop_last()) + bs.last().1.buy_orders@.len()
            + bs.last().1.sell_orders@.len()
    }
}

/// Appending one order extends exactly the bucket it belongs to.
proof fn lemma_bucket_push(s: Seq<Order>, o: Order, t: i32, buy: bool)
    ensures
        bucket_of(s.push(o), t, buy) == (if o.type_id == t && o.is_buy_order == buy {
            bucket_of(s, t, buy).push(o)
        } else {
            bucket_of(s, t, buy)
        }),
{
    assert(s.push(o).drop_last() =~= s);
    assert(s.push(o).last() == o);
}

/// A type that occurs nowhere in `s` has an empty bucket.
proof fn lemma_bucket_of_absent(s: Seq<Order>, t: i32, buy: bool)
    requires
        forall|k: int| 0 <= k < s.len() ==> (#[trigger] s[k]).type_id != t,
    ensures
        bucket_of(s, t, buy) =~= Seq::<Order>::empty(),
    decreases s.len(),
{
    if s.len() > 0 {
        assert(forall|k: int|
            0 <= k < s.drop_last().len() ==> (#[trigger] s.drop_last()[k]).type_id != t);
        lemma_bucket_of_absent(s.drop_last(), t, buy);
    }
}

/// Replacing the bucket at `j` changes the total count by the difference of
/// the two buckets' sizes.
proof fn lemma_order_count_update(bs: Seq<(i32, TypeOrders)>, j: int, e: (i32, TypeOrders))
    requires
        0 <= j < bs.len(),
    ensures
        order_count(bs.update(j, e)) + bs[j].1.buy_orders@.len() + bs[j].1.sell_orders@.len()
            == order_count(bs) + e.1.buy_orders@.len() + e.1.sell_orders@.len(),
    decreases bs.len(),
{
    if j == bs.len() - 1 {
        assert(bs.update(j, e).drop_last() =~= bs.drop_last());
        assert(bs.update(j, e).last() == e);
    } else {
        assert(bs.update(j, e).drop_last() =~= bs.drop_last().update(j, e));
        assert(bs.update(j, e).last() == bs.last());
        lemma_order_count_update(bs.drop_last(), j, e);
    }
}

/// An order is in the bucket for `(t, buy)` exactly when it occurs in the
/// source and carries that type and side.
pub proof fn lemma_bucket_of_membership(s: Seq<Order>, t: i32, buy: bool, o: Order)
    ensures
        bucket_of(s, t, buy).contains(o) <==> (o.type_id == t && o.is_buy_order == buy
            && s.contains(o)),
    decreases s.len(),
{
    if s.len() == 0 {
    } else {
        lemma_bucket_of_membership(s.drop_last(), t, buy, o);
        if s.contains(o) {
            let k = choose|k: int| 0 <= k < s.len() && s[k] == o;
            if k < s.len() - 1 {
                assert(s.drop_last()[k] == o);
                assert(s.drop_last().contains(o));
            }
        }
        if s.drop_last().contains(o) {
            let k = choose|k: int| 0 <= k < s.drop_last().len() && s.drop_last()[k] == o;
            assert(s[k] == o);
            assert(s.contains(o));
        }
        let b = bucket_of(s, t, buy);
        let br = bucket_of(s.drop_last(), t, buy);
        if s.last().type_id == t && s.last().is_buy_order == buy {
            assert(b == br.push(s.last()));
            if b.contains(o) {
                let k = choose|k: int| 0 <= k < b.len() && b[k] == o;
                if k < b.len() - 1 {
                    assert(br[k] == o);
                    assert(br.contains(o));
                } else {
                    assert(o == s.last());
                    assert(s.contains(o));
                }
            }
            if br.contains(o) {
                let k = choose|k: int| 0 <= k < br.len() && br[k] == o;
                assert(b[k] == o);
                assert(b.contains(o));
            }
            if o == s.last() {
                assert(b[b.len() - 1] == o);
                assert(b.contains(o));
            }
        }
    }
}

/// Finds the bucket carrying key `t`, if any.
fn find_bucket(buckets: &Vec<(i32, TypeOrders)>, t: i32) -> (r: Option<usize>)
    ensures
        match r {
            Some(j) => j < buckets@.len() && buckets@[j as int].0 == t,
            None => forall|q: int| 0 <= q < buckets@.len() ==> (#[trigger] buckets@[q]).0 != t,
        },
{
    let mut j: usize = 0;
    while j < buckets.len()
        invariant
            j <= buckets@.len(),
            forall|q: int| 0 <= q < j ==> (#[trigger] buckets@[q]).0 != t,
        decreases buckets@.len() - j,
    {
        if buckets[j].0 == t {
            return Some(j);
        }
        j += 1;
    }
    None
}

/// Buckets every order of `orders` by `type_id` into a buy list or a sell
/// list, preserving arrival order within each list.  Every order lands in
/// exactly one list of exactly one bucket, none is duplicated or dropped,
/// and a bucket exists exactly for the types that occur.
pub fn aggregate(region_id: i32, orders: Vec<Order>) -> (r: RegionOrders)
    ensures
        r.region_id == region_id,
        bucketed(orders@, r.orders@),
        order_count(r.orders@) == orders@.len(),
{
    let ghost src = orders@;
    let mut rest = orders;
    let mut buckets: Vec<(i32, TypeOrders)> = Vec::new();
    while rest.len() > 0
        invariant
            rest@.len() <= src.len(),
            rest@ =~= src.skip(src.len() - rest@.len()),
            bucketed(src.take(src.len() - rest@.len()), buckets@),
            order_count(buckets@) == src.len() - rest@.len(),
        decreases rest@.len(),
    {
        let ghost done = src.len() - rest@.len();
        let ghost prefix = src.take(done as int);
        let o = rest.remove(0);
        proof {
            assert(o == src[done as int]);
            assert(rest@ =~= src.skip(done as int + 1));
            assert(src.take(done as int + 1) =~= prefix.push(o));
        }
        let ghost prefix1 = src.take(done as int + 1);
        let t = o.type_id;
        let buy = o.is_buy_order;
        match find_bucket(&buckets, t) {
            Some(j) => {
                let ghost old_buckets = buckets@;
                let mut entry = buckets.remove(j);
                if buy {
                    entry.1.buy_orders.push(o);
                } else {
                    entry.1.sell_orders.push(o);
                }
                buckets.insert(j, entry);
                proof {
                    assert(buckets@ =~= old_buckets.update(j as int, buckets@[j as int]));
                    lemma_order_count_update(old_buckets, j as int, buckets@[j as int]);
                    assert forall|i: int| 0 <= i < buckets@.len() implies
                        (#[trigger] buckets@[i]).1.buy_orders@ == bucket_of(prefix1, buckets@[i].0, true)
                        && buckets@[i].1.sell_orders@ == bucket_of(prefix1, buckets@[i].0, false) by {
                        lemma_bucket_push(prefix, o, buckets@[i].0, true);
                        lemma_bucket_push(prefix, o, buckets@[i].0, false);
                    }
                    assert forall|k: int| 0 <= k < prefix1.len() implies
                        has_bucket(buckets@, (#[trigger] prefix1[k]).type_id) by {
                        if k < prefix.len() {
                            let i = choose|i: int|
                                0 <= i < old_buckets.len() && (#[trigger] old_buckets[i]).0
                                    == prefix[k].type_id;
                            assert(buckets@[i].0 == prefix1[k].type_id);
                        } else {
                            assert(buckets@[j as int].0 == t);
                        }
                    }
                    assert forall|i: int| 0 <= i < buckets@.len() implies
                        key_occurs(prefix1, (#[trigger] buckets@[i]).0) by {
                        let k = choose|k: int|
                            0 <= k < prefix.len() && (#[trigger] prefix[k]).type_id
                                == old_buckets[i].0;
                        assert(prefix1[k].type_id == buckets@[i].0);
                    }
                }
            },
            None => {
                let ghost old_buckets = buckets@;
                let mut bucket = TypeOrders { sell_orders: Vec::new(), buy_orders: Vec::new() };
                if buy {
                    bucket.buy_orders.push(o);
                } else {
                    bucket.sell_orders.push(o);
                }
                buckets.push((t, bucket));
                proof {
                    assert(buckets@ =~= old_buckets.push(buckets@.last()));
                    assert(buckets@.drop_last() =~= old_buckets);
                    assert forall|k: int| 0 <= k < prefix.len() implies
                        (#[trigger] prefix[k]).type_id != t by {
                        if prefix[k].type_id == t {
                            assert(has_bucket(old_buckets, prefix[k].type_id));
                        }
                    }
                    lemma_bucket_of_absent(prefix, t, true);
                    lemma_bucket_of_absent(prefix, t, false);
                    assert forall|i: int| 0 <= i < buckets@.len() implies
                        (#[trigger] buckets@[i]).1.buy_orders@ == bucket_of(prefix1, buckets@[i].0, true)
                        && buckets@[i].1.sell_orders@ == bucket_of(prefix1, buckets@[i].0, false) by {
                        lemma_bucket_push(prefix, o, buckets@[i].0, true);
                        lemma_bucket_push(prefix, o, buckets@[i].0, false);
                    }
                    assert forall|k: int| 0 <= k < prefix1.len() implies
                        has_bucket(buckets@, (#[trigger] prefix1[k]).type_id) by {
                        if k < prefix.len() {
                            let i = choose|i: int|
                                0 <= i < old_buckets.len() && (#[trigger] old_buckets[i]).0
                                    == prefix[k].type_id;
                            assert(buckets@[i].0 == prefix1[k].type_id);
                        } else {
                            assert(buckets@[buckets@.len() - 1].0 == t);
                        }
                    }
                    assert forall|i: int| 0 <= i < buckets@.len() implies
                        key_occurs(prefix1, (#[trigger] buckets@[i]).0) by {
                        if i < old_buckets.len() {
                            let k = choose|k: int|
                                0 <= k < prefix.len() && (#[trigger] prefix[k]).type_id
                                    == old_buckets[i].0;
                            assert(prefix1[k].type_id == buckets@[i].0);
                        } else {
                            assert(prefix1[prefix1.len() - 1].type_id == buckets@[i].0);
                        }
                    }
                }
            },
        }
    }
    proof {
        assert(src.take(src.len() as int) =~= src);
    }
    RegionOrders { region_id, orders: buckets }
}

/// Aggregation is a partition: the order at position `k` of the source is
/// held by the bucket keyed with its `type_id`, on the side named by its
/// `is_buy_order` flag, and by no other bucket and no other side.  Together
/// with the count preserved by `aggregate`, no order is duplicated or
/// dropped.
pub proof fn lemma_aggregation_partitions(src: Seq<Order>, bs: Seq<(i32, TypeOrders)>, k: int)
    requires
        bucketed(src, bs),
        0 <= k < src.len(),
    ensures
        has_bucket(bs, src[k].type_id),
        forall|i: int|
            0 <= i < bs.len() && (#[trigger] bs[i]).0 == src[k].type_id && src[k].is_buy_order
                ==> bs[i].1.buy_orders@.contains(src[k]) && !bs[i].1.sell_orders@.contains(src[k]),
        forall|i: int|
            0 <= i < bs.len() && (#[trigger] bs[i]).0 == src[k].type_id && !src[k].is_buy_order
                ==> bs[i].1.sell_orders@.contains(src[k]) && !bs[i].1.buy_orders@.contains(src[k]),
        forall|i: int|
            0 <= i < bs.len() && (#[trigger] bs[i]).0 != src[k].type_id
                ==> !bs[i].1.buy_orders@.contains(src[k]) && !bs[i].1.sell_orders@.contains(src[k]),
{
    assert(src.contains(src[k]));
    assert forall|i: int| 0 <= i < bs.len() implies {
        &&& (bs[i].0 == src[k].type_id && src[k].is_buy_order ==> (#[trigger] bs[i]).1.buy_orders@.contains(src[k])
            && !bs[i].1.sell_orders@.contains(src[k]))
        &&& (bs[i].0 == src[k].type_id && !src[k].is_buy_order ==> bs[i].1.sell_orders@.contains(src[k])
            && !bs[i].1.buy_orders@.contains(src[k]))
        &&& (bs[i].0 != src[k].type_id ==> !bs[i].1.buy_orders@.contains(src[k])
            && !bs[i].1.sell_orders@.contains(src[k]))
    } by {
        lemma_bucket_of_membership(src, bs[i].0, true, src[k]);
        lemma_bucket_of_membership(src, bs[i].0, false, src[k]);
    }
}

/// Orders of type `t` in `src`, counted over both sides.
spec fn type_count(src: Seq<Order>, t: i32) -> nat {
    bucket_of(src, t, true).len() + bucket_of(src, t, false).len()
}

/// The orders of `src` counted once per bucket key of `bs`.
spec fn tally(src: Seq<Order>, bs: Seq<(i32, TypeOrders)>) -> nat
    decreases bs.len(),
{
    if bs.len() == 0 {
        0
    } else {
        tally(src, bs.drop_last()) + type_count(src, bs.last().0)
    }
}

/// How many buckets of `bs` carry the key `t`.
spec fn key_multiplicity(bs: Seq<(i32, TypeOrders)>, t: i32) -> nat
    decreases bs.len(),
{
    if bs.len() == 0 {
        0
    } else {
        key_multiplicity(bs.drop_last(), t) + (if bs.last().0 == t {
            1nat
        } else {
            0nat
        })
    }
}

proof fn lemma_tally_matches(src: Seq<Order>, bs: Seq<(i32, TypeOrders)>)
    requires
        buckets_match(src, bs),
    ensures
        order_count(bs) == tally(src, bs),
    decreases bs.len(),
{
    if bs.len() > 0 {
        assert forall|i: int| 0 <= i < bs.drop_last().len() implies
            (#[trigger] bs.drop_last()[i]).1.buy_orders@ == bucket_of(src, bs.drop_last()[i].0, true)
            && bs.drop_last()[i].1.sell_orders@ == bucket_of(src, bs.drop_last()[i].0, false) by {
            assert(bs.drop_last()[i] == bs[i]);
        }
        lemma_tally_matches(src, bs.drop_last());
        assert(bs[bs.len() - 1].1.buy_orders@ == bucket_of(src, bs[bs.len() - 1].0, true));
    }
}

proof fn lemma_tally_empty_source(bs: Seq<(i32, TypeOrders)>)
    ensures
        tally(Seq::<Order>::empty(), bs) == 0,
    decreases bs.len(),
{
    if bs.len() > 0 {
        lemma_tally_empty_source(bs.drop_last());
    }
}

proof fn lemma_tally_push(src: Seq<Order>, o: Order, bs: Seq<(i32, TypeOrders)>)
    ensures
        tally(src.push(o), bs) == tally(src, bs) + key_multiplicity(bs, o.type_id),
    decreases bs.len(),
{
    if bs.len() > 0 {
        lemma_tally_push(src, o, bs.drop_last());
        lemma_bucket_push(src, o, bs.last().0, true);
        lemma_bucket_push(src, o, bs.last().0, false);
    }
}

proof fn lemma_multiplicity_unique(bs: Seq<(i32, TypeOrders)>, t: i32)
    requires
        bucket_keys_unique(bs),
    ensures
        key_multiplicity(bs, t) == (if has_bucket(bs, t) {
            1nat
        } else {
            0nat
        }),
    decreases bs.len(),
{
    if bs.len() > 0 {
        assert forall|i: int, j: int| 0 <= i < j < bs.drop_last().len() implies
            (#[trigger] bs.drop_last()[i]).0 != (#[trigger] bs.drop_last()[j]).0 by {
            assert(bs.drop_last()[i] == bs[i] && bs.drop_last()[j] == bs[j]);
        }
        lemma_multiplicity_unique(bs.drop_last(), t);
        if bs.last().0 == t {
            if has_bucket(bs.drop_last(), t) {
                let i = choose|i: int|
                    0 <= i < bs.drop_last().len() && (#[trigger] bs.drop_last()[i]).0 == t;
                assert(bs[i].0 == t && bs[bs.len() - 1].0 == t);
                assert(false);
            }
            assert(bs[bs.len() - 1].0 == t);
        } else {
            if has_bucket(bs, t) {
                let i = choose|i: int| 0 <= i < bs.len() && (#[trigger] bs[i]).0 == t;
                assert(bs.drop_last()[i].0 == t);
            }
            if has_bucket(bs.drop_last(), t) {
                let i = choose|i: int|
                    0 <= i < bs.drop_last().len() && (#[trigger] bs.drop_last()[i]).0 == t;
                assert(bs[i].0 == t);
            }
        }
    }
}

proof fn lemma_tally_complete(src: Seq<Order>, bs: Seq<(i32, TypeOrders)>)
    requires
        bucket_keys_unique(bs),
        buckets_complete(src, bs),
    ensures
        tally(src, bs) == src.len(),
    decreases src.len(),
{
    if src.len() == 0 {
        assert(src =~= Seq::<Order>::empty());
        lemma_tally_empty_source(bs);
    } else {
        let s = src.drop_last();
        let o = src.last();
        assert(src =~= s.push(o));
        assert forall|k: int| 0 <= k < s.len() implies has_bucket(
            bs,
            (#[trigger] s[k]).type_id,
        ) by {
            assert(s[k] == src[k]);
        }
        lemma_tally_complete(s, bs);
        lemma_tally_push(s, o, bs);
        lemma_multiplicity_unique(bs, o.type_id);
        assert(has_bucket(bs, src[src.len() - 1].type_id));
    }
}

/// Cardinality is preserved by any aggregation: a decomposition that is
/// `bucketed` holds exactly as many orders, over all buckets and both
/// sides, as the source list — none duplicated, none dropped.
pub proof fn lemma_bucketed_preserves_count(src: Seq<Order>, bs: Seq<(i32, TypeOrders)>)
    requires
        bucketed(src, bs),
    ensures
        order_count(bs) == src.len(),
{
    lemma_tally_matches(src, bs);
    lemma_tally_complete(src, bs);
}

/// An empty source list aggregates to an empty mapping: an empty order book
/// is a legitimate payload, not an error.
pub proof fn lemma_empty_source_no_buckets(bs: Seq<(i32, TypeOrders)>)
    requires
        bucketed(Seq::<Order>::empty(), bs),
    ensures
        bs.len() == 0,
{
    if bs.len() > 0 {
        assert(key_occurs(Seq::<Order>::empty(), bs[0].0));
        let k = choose|k: int|
            0 <= k < Seq::<Order>::empty().len() && (#[trigger] Seq::<Order>::empty()[k]).type_id
                == bs[0].0;
        assert(false);
    }
}

impl RegionOrders {
    /// The bucket for `type_id`, if any order of that type was collected.
    pub fn bucket_for(&self, type_id: i32) -> (r: Option<&TypeOrders>)
        ensures
            match r {
                Some(b) => exists|j: int|
                    0 <= j < self.orders@.len() && self.orders@[j] == (type_id, *b),
                None => forall|q: int|
                    0 <= q < self.orders@.len() ==> (#[trigger] self.orders@[q]).0 != type_id,
            },
    {
        let mut j: usize = 0;
        while j < self.orders.len()
            invariant
                j <= self.orders@.len(),
                forall|q: int| 0 <= q < j ==> (#[trigger] self.orders@[q]).0 != type_id,
            decreases self.orders@.len() - j,
        {
            if self.orders[j].0 == type_id {
                assert(self.orders@[j as int] == (type_id, self.orders@[j as int].1));
                return Some(&self.orders[j].1);
            }
            j += 1;
        }
        None
    }
}

} // verus!
