//! Buckets: a mapping from an integer key to the set of items that
//! currently have that key. The k-core decomposition keeps vertices by
//! degree in it, Kruskal's algorithm edges by weight.

use vstd::prelude::*;
use std::collections::HashMap;
use std::collections::HashSet;
use std::hash::Hash;
use vstd::std_specs::iter::IteratorSpec;
use crate::ids::{clone_value, id_model};

verus! {

/// The items under `key`; none when there is no such bucket.
pub open spec fn bucket_of<N>(buckets: Map<i32, HashSet<N>>, key: i32) -> Set<N> {
    if buckets.contains_key(key) {
        buckets[key]@
    } else {
        Set::empty()
    }
}

/// The key after `key`; the greatest key is its own successor.
pub open spec fn next_key(key: i32) -> i32 {
    if key < i32::MAX {
        (key + 1) as i32
    } else {
        key
    }
}

/// Takes an item out of the bucket under `*current_core`, and returns it.
/// Which item leaves is not determined. When that bucket is missing or
/// empty, nothing is taken, the buckets stay as they are, and
/// `*current_core` moves on to the next key (it stays where it is on the
/// greatest key, `i32::MAX`). No bucket is created or dropped: a bucket
/// that has lost its last item stays, empty.
pub fn get_next_vertex<N: Eq + Hash + Clone>(
    buckets: &mut HashMap<i32, HashSet<N>>,
    current_core: &mut i32,
) -> (r: Result<N, ()>)
    requires
        id_model::<N>(),
    ensures
        match r {
            Ok(v) => {
                &&& bucket_of(old(buckets)@, *old(current_core)).contains(v)
                &&& *final(current_core) == *old(current_core)
                &&& bucket_of(final(buckets)@, *old(current_core)) == bucket_of(
                    old(buckets)@,
                    *old(current_core),
                ).remove(v)
            },
            Err(_) => {
                &&& bucket_of(old(buckets)@, *old(current_core)) == Set::<N>::empty()
                &&& *final(current_core) == next_key(*old(current_core))
                &&& final(buckets)@ == old(buckets)@
            },
        },
        final(buckets)@.dom() == old(buckets)@.dom(),
        forall|k: i32|
            k != *old(current_core) ==> #[trigger] bucket_of(final(buckets)@, k) == bucket_of(
                old(buckets)@,
                k,
            ),
{
    let key: i32 = *current_core;
    let mut bucket: HashSet<N> = match buckets.remove(&key) {
        Some(bucket) => bucket,
        None => {
            if key < i32::MAX {
                *current_core = key + 1;
            }
            return Err(());
        },
    };
    let ghost before = buckets@;
    let found: Option<N> = first_item(&bucket);
    match found {
        Some(v) => {
            bucket.remove(&v);
            buckets.insert(key, bucket);
            proof {
                assert(buckets@.dom() =~= old(buckets)@.dom());
                assert forall|k: i32| k != key implies #[trigger] bucket_of(buckets@, k)
                    == bucket_of(old(buckets)@, k) by {}
            }
            Ok(v)
        },
        None => {
            buckets.insert(key, bucket);
            proof {
                assert(buckets@ =~= old(buckets)@);
            }
            if key < i32::MAX {
                *current_core = key + 1;
            }
            Err(())
        },
    }
}

/// Some item of the set, or `None` when the set is empty.
pub fn first_item<N: Eq + Hash + Clone>(bucket: &HashSet<N>) -> (r: Option<N>)
    requires
        id_model::<N>(),
    ensures
        match r {
            Some(v) => bucket@.contains(v),
            None => bucket@ == Set::<N>::empty(),
        },
{
    let ghost items = bucket.iter().remaining().unref();
    for v in it: bucket.iter()
        invariant
            id_model::<N>(),
            it.index() == 0,
            it.seq().unref() == items,
            items.to_set() == bucket@,
    {
        proof {
            assert(items[0] == *v);
            assert(items.to_set().contains(*v));
        }
        return Some(clone_value(v));
    }
    proof {
        assert(items =~= Seq::<N>::empty());
        assert(bucket@ =~= Set::<N>::empty());
    }
    None
}

/// Puts `v` into the bucket under `key`, creating the bucket when there is
/// none. No other bucket is created or dropped.
pub fn add_to_bucket<N: Eq + Hash + Clone>(buckets: &mut HashMap<i32, HashSet<N>>, key: i32, v: N)
    requires
        id_model::<N>(),
    ensures
        final(buckets)@.dom() == old(buckets)@.dom().insert(key),
        bucket_of(final(buckets)@, key) == bucket_of(old(buckets)@, key).insert(v),
        forall|k: i32|
            k != key ==> #[trigger] bucket_of(final(buckets)@, k) == bucket_of(old(buckets)@, k),
{
    let mut bucket: HashSet<N> = match buckets.remove(&key) {
        Some(bucket) => bucket,
        None => HashSet::new(),
    };
    bucket.insert(v);
    buckets.insert(key, bucket);
    proof {
        assert(buckets@.dom() =~= old(buckets)@.dom().insert(key));
        assert forall|k: i32| k != key implies #[trigger] bucket_of(buckets@, k) == bucket_of(
            old(buckets)@,
            k,
        ) by {}
    }
}

/// Takes `v` out of the bucket under `key`, where it is in it. No bucket is
/// created or dropped: a bucket that has lost its last item stays, empty.
pub fn remove_from_bucket<N: Eq + Hash + Clone>(
    buckets: &mut HashMap<i32, HashSet<N>>,
    key: i32,
    v: &N,
)
    requires
        id_model::<N>(),
    ensures
        final(buckets)@.dom() == old(buckets)@.dom(),
        bucket_of(final(buckets)@, key) == bucket_of(old(buckets)@, key).remove(*v),
        forall|k: i32|
            k != key ==> #[trigger] bucket_of(final(buckets)@, k) == bucket_of(old(buckets)@, k),
{
    match buckets.remove(&key) {
        Some(bucket) => {
            let mut bucket = bucket;
            bucket.remove(v);
            buckets.insert(key, bucket);
        },
        None => {
            assert(bucket_of(old(buckets)@, key).remove(*v) =~= Set::<N>::empty());
        },
    }
    proof {
        assert(buckets@.dom() =~= old(buckets)@.dom());
        assert forall|k: i32| k != key implies #[trigger] bucket_of(buckets@, k) == bucket_of(
            old(buckets)@,
            k,
        ) by {}
    }
}

} // verus!
