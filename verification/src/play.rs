//! Workloads for trying an engine out: random keys, keys in ascending order,
//! and a measure of how sorted a run of keys is. The functions here do the
//! work and count; timing and printing are left to the caller.

use crate::chance::draw_below;
use crate::shape::{lemma_gained, non_descending};
use crate::Tree;
use rand::rngs::ThreadRng;
use vstd::prelude::*;

verus! {

/// What a workload has counted.
#[derive(Debug, Clone, Copy, PartialEq, Eq)]
pub struct PlayCounts {
    /// Insertions that added a key.
    pub inserted: usize,
    /// Lookups that found their key.
    pub found: usize,
    /// Removals that reported a key.
    pub removed: usize,
}

/// What one insertion does to a tree, as every engine promises it: a key
/// that the tree accepts is added to the listing, a key that it does not
/// accept leaves the listing as it was.
pub open spec fn insert_step<T: Tree>(before: T, key: i64, after: T) -> bool {
    &&& non_descending(after.listing())
    &&& before.accepts(key) ==> after.listing().to_multiset()
        == before.listing().to_multiset().insert(key)
    &&& !before.accepts(key) ==> after.listing() == before.listing()
}

/// What one removal does to a tree, as every engine promises it: one copy
/// of the key leaves the listing, if there is one.
pub open spec fn remove_step<T: Tree>(before: T, key: i64, after: T) -> bool {
    &&& non_descending(after.listing())
    &&& after.listing().to_multiset() == before.listing().to_multiset().remove(key)
}

/// The keys were inserted one after the other. `states` holds the tree as it
/// was before the first key, between each two keys and after the last.
pub open spec fn inserted_in_turn<T: Tree>(states: Seq<T>, keys: Seq<i64>) -> bool
    decreases keys.len(),
{
    if keys.len() == 0 {
        states.len() == 1
    } else {
        &&& states.len() == keys.len() + 1
        &&& inserted_in_turn(states.drop_last(), keys.drop_last())
        &&& insert_step(states[keys.len() - 1], keys.last(), states.last())
    }
}

/// The keys were removed one after the other. `states` holds the tree as it
/// was before the first key, between each two keys and after the last.
pub open spec fn removed_in_turn<T: Tree>(states: Seq<T>, keys: Seq<i64>) -> bool
    decreases keys.len(),
{
    if keys.len() == 0 {
        states.len() == 1
    } else {
        &&& states.len() == keys.len() + 1
        &&& removed_in_turn(states.drop_last(), keys.drop_last())
        &&& remove_step(states[keys.len() - 1], keys.last(), states.last())
    }
}

/// How many of the keys the tree accepted, each in the state in which it
/// was offered.
pub open spec fn accepted<T: Tree>(states: Seq<T>, keys: Seq<i64>) -> nat
    decreases keys.len(),
{
    if keys.len() == 0 {
        0
    } else {
        accepted(states.drop_last(), keys.drop_last()) + if states[keys.len() - 1].accepts(
            keys.last(),
        ) {
            1nat
        } else {
            0nat
        }
    }
}

/// For how many of the keys the tree reported a removal, each in the state
/// in which it was asked for.
pub open spec fn yielded<T: Tree>(states: Seq<T>, keys: Seq<i64>) -> nat
    decreases keys.len(),
{
    if keys.len() == 0 {
        0
    } else {
        yielded(states.drop_last(), keys.drop_last()) + if states[keys.len() - 1].yields(
            keys.last(),
        ) {
            1nat
        } else {
            0nat
        }
    }
}

/// How many of the keys stand in the listing.
pub open spec fn hits(listing: Seq<i64>, keys: Seq<i64>) -> nat
    decreases keys.len(),
{
    if keys.len() == 0 {
        0
    } else {
        hits(listing, keys.drop_last()) + if listing.contains(keys.last()) {
            1nat
        } else {
            0nat
        }
    }
}

/// Inserting the keys in turn took the tree from `before` to `after`, and
/// `inserted` of them were accepted.
pub open spec fn insert_phase<T: Tree>(before: T, keys: Seq<i64>, after: T, inserted: nat) -> bool {
    exists|states: Seq<T>|
        {
            &&& #[trigger] inserted_in_turn(states, keys)
            &&& states.first() == before
            &&& states.last() == after
            &&& inserted == accepted(states, keys)
        }
}

/// Removing the keys in turn took the tree from `before` to `after`, and for
/// `removed` of them the tree reported a removal.
pub open spec fn remove_phase<T: Tree>(before: T, keys: Seq<i64>, after: T, removed: nat) -> bool {
    exists|states: Seq<T>|
        {
            &&& #[trigger] removed_in_turn(states, keys)
            &&& states.first() == before
            &&& states.last() == after
            &&& removed == yielded(states, keys)
        }
}

/// `keys` are `count` keys from `0..bound`.
pub open spec fn drawn(keys: Seq<i64>, count: nat, bound: int) -> bool {
    &&& keys.len() == count
    &&& forall|i: int| 0 <= i < keys.len() ==> 0 <= #[trigger] keys[i] < bound
}

/// The keys `0`, `1`, and so on up to `n - 1`.
pub open spec fn counting_up(n: nat) -> Seq<i64> {
    Seq::new(n, |i: int| i as i64)
}

/// Inserts `count` keys drawn at random from `0..bound`, one after the
/// other, and counts those that the tree took.
pub fn insert_random<T: Tree>(
    tree: &mut T,
    rng: &mut ThreadRng,
    count: usize,
    bound: usize,
) -> (inserted: usize)
    requires
        count > 0 ==> 0 < bound <= i64::MAX + 1,
    ensures
        exists|keys: Seq<i64>|
            #[trigger] drawn(keys, count as nat, bound as int) && insert_phase(
                *old(tree),
                keys,
                *final(tree),
                inserted as nat,
            ),
        count == 0 ==> inserted == 0 && *final(tree) == *old(tree),
        inserted <= count,
        final(tree).listing().len() == old(tree).listing().len() + inserted,
{
    let mut inserted: usize = 0;
    let mut done: usize = 0;
    let ghost mut keys: Seq<i64> = Seq::empty();
    let ghost mut states: Seq<T> = seq![*tree];
    while done < count
        invariant
            done <= count,
            inserted <= done,
            count > 0 ==> 0 < bound <= i64::MAX + 1,
            drawn(keys, done as nat, bound as int),
            inserted_in_turn(states, keys),
            states.first() == *old(tree),
            states.last() == *tree,
            inserted == accepted(states, keys),
            tree.listing().len() == old(tree).listing().len() + inserted,
        decreases count - done,
    {
        let key = draw_below(rng, bound) as i64;
        let ghost before = *tree;
        let added = tree.insert(key);
        proof {
            let longer = states.push(*tree);
            assert(longer.drop_last() =~= states);
            assert(keys.push(key).drop_last() =~= keys);
            assert(longer[keys.len() as int] == before);
            assert(insert_step(before, key, *tree));
            states = longer;
            keys = keys.push(key);
        }
        if added {
            proof {
                lemma_gained(before.listing(), tree.listing(), key);
            }
            inserted += 1;
        }
        done += 1;
    }
    proof {
        assert(insert_phase(*old(tree), keys, *tree, inserted as nat));
    }
    inserted
}

/// Inserts the keys `0`, `1`, and so on up to `n - 1`, in that order, and
/// counts those that the tree took.
pub fn insert_sorted<T: Tree>(tree: &mut T, n: usize) -> (inserted: usize)
    requires
        n <= i64::MAX + 1,
    ensures
        insert_phase(*old(tree), counting_up(n as nat), *final(tree), inserted as nat),
        inserted <= n,
        final(tree).listing().len() == old(tree).listing().len() + inserted,
{
    let mut inserted: usize = 0;
    let mut next: usize = 0;
    let ghost mut states: Seq<T> = seq![*tree];
    while next < n
        invariant
            next <= n <= i64::MAX + 1,
            inserted <= next,
            inserted_in_turn(states, counting_up(next as nat)),
            states.first() == *old(tree),
            states.last() == *tree,
            inserted == accepted(states, counting_up(next as nat)),
            tree.listing().len() == old(tree).listing().len() + inserted,
        decreases n - next,
    {
        let key = next as i64;
        let ghost before = *tree;
        let added = tree.insert(key);
        proof {
            let keys = counting_up(next as nat);
            let longer_keys = counting_up((next + 1) as nat);
            let longer = states.push(*tree);
            assert(longer.drop_last() =~= states);
            assert(longer_keys.drop_last() =~= keys);
            assert(longer_keys.last() == key);
            assert(longer[keys.len() as int] == before);
            assert(insert_step(before, key, *tree));
            states = longer;
        }
        if added {
            proof {
                lemma_gained(before.listing(), tree.listing(), key);
            }
            inserted += 1;
        }
        next += 1;
    }
    proof {
        assert(insert_phase(*old(tree), counting_up(n as nat), *tree, inserted as nat));
    }
    inserted
}

/// Looks up `count` keys drawn at random from `0..bound` and counts those found.
pub fn search_random<T: Tree>(
    tree: &T,
    rng: &mut ThreadRng,
    count: usize,
    bound: usize,
) -> (found: usize)
    requires
        count > 0 ==> 0 < bound <= i64::MAX + 1,
    ensures
        exists|keys: Seq<i64>|
            #[trigger] drawn(keys, count as nat, bound as int) && found == hits(
                tree.listing(),
                keys,
            ),
        found <= count,
        tree.listing().len() == 0 ==> found == 0,
{
    let mut found: usize = 0;
    let mut done: usize = 0;
    let ghost mut keys: Seq<i64> = Seq::empty();
    while done < count
        invariant
            done <= count,
            found <= done,
            count > 0 ==> 0 < bound <= i64::MAX + 1,
            drawn(keys, done as nat, bound as int),
            found == hits(tree.listing(), keys),
            tree.listing().len() == 0 ==> found == 0,
        decreases count - done,
    {
        let key = draw_below(rng, bound) as i64;
        proof {
            assert(keys.push(key).drop_last() =~= keys);
            keys = keys.push(key);
        }
        if tree.search(key) {
            found += 1;
        }
        done += 1;
    }
    found
}

/// Removes `count` keys drawn at random from `0..bound`, one after the
/// other, and counts the removals for which the tree reported a key.
pub fn remove_random<T: Tree>(
    tree: &mut T,
    rng: &mut ThreadRng,
    count: usize,
    bound: usize,
) -> (removed: usize)
    requires
        count > 0 ==> 0 < bound <= i64::MAX + 1,
    ensures
        exists|keys: Seq<i64>|
            #[trigger] drawn(keys, count as nat, bound as int) && remove_phase(
                *old(tree),
                keys,
                *final(tree),
                removed as nat,
            ),
        count == 0 ==> removed == 0 && *final(tree) == *old(tree),
        removed <= count,
        final(tree).listing().len() <= old(tree).listing().len() <= final(tree).listing().len()
            + count,
{
    let mut removed: usize = 0;
    let mut done: usize = 0;
    let ghost mut keys: Seq<i64> = Seq::empty();
    let ghost mut states: Seq<T> = seq![*tree];
    while done < count
        invariant
            done <= count,
            removed <= done,
            count > 0 ==> 0 < bound <= i64::MAX + 1,
            drawn(keys, done as nat, bound as int),
            removed_in_turn(states, keys),
            states.first() == *old(tree),
            states.last() == *tree,
            removed == yielded(states, keys),
            tree.listing().len() <= old(tree).listing().len() <= tree.listing().len() + done,
        decreases count - done,
    {
        let key = draw_below(rng, bound) as i64;
        let ghost before = *tree;
        let taken = tree.remove(key);
        proof {
            let longer = states.push(*tree);
            assert(longer.drop_last() =~= states);
            assert(keys.push(key).drop_last() =~= keys);
            assert(longer[keys.len() as int] == before);
            assert(remove_step(before, key, *tree));
            states = longer;
            keys = keys.push(key);
            lemma_shorter_by_one_at_most(before.listing(), tree.listing(), key);
        }
        match taken {
            Some(value) => {
                assert(value == key);
                removed += 1;
            },
            None => {},
        }
        done += 1;
    }
    proof {
        assert(remove_phase(*old(tree), keys, *tree, removed as nat));
    }
    removed
}

/// What a workload of three phases does. The keys `put` are inserted in
/// turn, which takes the tree from `before` to `between`; the keys `sought`
/// are looked up there; the keys `cut` are removed in turn, which takes the
/// tree on to `after`. `counts` holds how many keys each phase counted.
pub open spec fn played<T: Tree>(
    before: T,
    put: Seq<i64>,
    between: T,
    sought: Seq<i64>,
    cut: Seq<i64>,
    after: T,
    counts: PlayCounts,
) -> bool {
    &&& insert_phase(before, put, between, counts.inserted as nat)
    &&& counts.found == hits(between.listing(), sought)
    &&& remove_phase(between, cut, after, counts.removed as nat)
}

/// Tries a tree out on random keys: `n` insertions of keys below `3 * n`,
/// then a tenth as many lookups and a tenth as many removals.
pub fn play_random_numbers<T: Tree>(tree: &mut T, n: usize) -> (counts: PlayCounts)
    requires
        3 * n <= usize::MAX,
        3 * n <= i64::MAX + 1,
    ensures
        exists|put: Seq<i64>, between: T, sought: Seq<i64>, cut: Seq<i64>|
            {
                &&& #[trigger] played(*old(tree), put, between, sought, cut, *final(tree), counts)
                &&& drawn(put, n as nat, 3 * n)
                &&& drawn(sought, (n / 10) as nat, 3 * n)
                &&& drawn(cut, (n / 10) as nat, 3 * n)
            },
        n == 0 ==> counts == (PlayCounts { inserted: 0, found: 0, removed: 0 }) && *final(tree)
            == *old(tree),
        counts.inserted <= n,
        counts.found <= n / 10,
        counts.removed <= n / 10,
        final(tree).listing().len() <= old(tree).listing().len() + counts.inserted
            <= final(tree).listing().len() + n / 10,
{
    let mut rng = rand::thread_rng();
    let inserted = insert_random(tree, &mut rng, n, 3 * n);
    let ghost between = *tree;
    let found = search_random(tree, &mut rng, n / 10, 3 * n);
    let removed = remove_random(tree, &mut rng, n / 10, 3 * n);
    let counts = PlayCounts { inserted, found, removed };
    proof {
        let put = choose|keys: Seq<i64>|
            #[trigger] drawn(keys, n as nat, (3 * n) as int) && insert_phase(
                *old(tree),
                keys,
                between,
                inserted as nat,
            );
        let sought = choose|keys: Seq<i64>|
            #[trigger] drawn(keys, (n / 10) as nat, (3 * n) as int) && found == hits(
                between.listing(),
                keys,
            );
        let cut = choose|keys: Seq<i64>|
            #[trigger] drawn(keys, (n / 10) as nat, (3 * n) as int) && remove_phase(
                between,
                keys,
                *tree,
                removed as nat,
            );
        assert(played(*old(tree), put, between, sought, cut, *tree, counts));
    }
    counts
}

/// Tries a tree out on keys in ascending order: the keys below `n` are
/// inserted from the smallest up, then a tenth as many keys below `n`, drawn
/// at random, are looked up and as many are removed.
pub fn play_sorted_numbers<T: Tree>(tree: &mut T, n: usize) -> (counts: PlayCounts)
    requires
        n <= i64::MAX + 1,
    ensures
        exists|between: T, sought: Seq<i64>, cut: Seq<i64>|
            {
                &&& #[trigger] played(
                    *old(tree),
                    counting_up(n as nat),
                    between,
                    sought,
                    cut,
                    *final(tree),
                    counts,
                )
                &&& drawn(sought, (n / 10) as nat, n as int)
                &&& drawn(cut, (n / 10) as nat, n as int)
            },
        n == 0 ==> counts == (PlayCounts { inserted: 0, found: 0, removed: 0 }) && *final(tree)
            == *old(tree),
        counts.inserted <= n,
        counts.found <= n / 10,
        counts.removed <= n / 10,
        final(tree).listing().len() <= old(tree).listing().len() + counts.inserted
            <= final(tree).listing().len() + n / 10,
{
    let mut rng = rand::thread_rng();
    let inserted = insert_sorted(tree, n);
    let ghost between = *tree;
    let found = search_random(tree, &mut rng, n / 10, n);
    let removed = remove_random(tree, &mut rng, n / 10, n);
    let counts = PlayCounts { inserted, found, removed };
    proof {
        let sought = choose|keys: Seq<i64>|
            #[trigger] drawn(keys, (n / 10) as nat, n as int) && found == hits(
                between.listing(),
                keys,
            );
        let cut = choose|keys: Seq<i64>|
            #[trigger] drawn(keys, (n / 10) as nat, n as int) && remove_phase(
                between,
                keys,
                *tree,
                removed as nat,
            );
        assert(played(*old(tree), counting_up(n as nat), between, sought, cut, *tree, counts));
    }
    counts
}

/// A listing that lost at most one copy of a key is shorter by at most one.
proof fn lemma_shorter_by_one_at_most(before: Seq<i64>, after: Seq<i64>, key: i64)
    requires
        after.to_multiset() == before.to_multiset().remove(key),
    ensures
        after.len() <= before.len() <= after.len() + 1,
{
    before.to_multiset_ensures();
    after.to_multiset_ensures();
    let bag = before.to_multiset();
    if bag.count(key) > 0 {
        assert(bag.remove(key).insert(key) =~= bag);
        vstd::multiset::lemma_insert_len(bag.remove(key), key);
    } else {
        assert(bag.remove(key) =~= bag);
    }
}

/// How many neighbours in `s` stand in order: the places at which an item
/// is not greater than the item after it.
pub open spec fn steps_in_order(s: Seq<i64>) -> nat
    decreases s.len(),
{
    if s.len() < 2 {
        0
    } else {
        steps_in_order(s.drop_last()) + if s[s.len() - 2] <= s[s.len() - 1] {
            1nat
        } else {
            0nat
        }
    }
}

/// The share of neighbours in `data` that stand in order, in percent and
/// rounded down; 100 for a single item.
pub fn sorted_percent(data: &Vec<i64>) -> (percent: usize)
    requires
        data.len() > 0,
    ensures
        data.len() == 1 ==> percent == 100,
        data.len() > 1 ==> percent == (steps_in_order(data@) * 100) as int / (data.len() - 1),
        percent <= 100,
{
    let mut size: usize = 0;
    let mut success: usize = 0;
    let mut prev: i64 = data[0];
    let mut at: usize = 1;
    assert(steps_in_order(data@.take(1)) == 0);
    while at < data.len()
        invariant
            1 <= at <= data.len(),
            size == at - 1,
            prev == data[at - 1],
            success == steps_in_order(data@.take(at as int)),
            success <= size,
        decreases data.len() - at,
    {
        let current = data[at];
        proof {
            let grown = data@.take(at + 1);
            assert(grown.drop_last() =~= data@.take(at as int));
        }
        if prev <= current {
            success += 1;
        }
        size += 1;
        prev = current;
        at += 1;
    }
    assert(data@.take(at as int) =~= data@);
    if size > 0 {
        let share = success as u128 * 100 / size as u128;
        assert(share == (success * 100) as int / (size as int));
        assert(share <= 100) by (nonlinear_arith)
            requires
                share == (success * 100) as int / (size as int),
                success <= size,
                size > 0,
        ;
        share as usize
    } else {
        100
    }
}

} // verus!
